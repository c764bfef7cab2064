//! UDP on the client side: which tunnel connection each local UDP client
//! sticks to, and which local socket answers for each proxy name. The
//! affinity table is bounded (the entry seen longest ago makes room for a
//! new one) and swept of idle entries and of entries whose connection is
//! gone. Times are nanoseconds on a monotonic clock the caller reads.

use vstd::prelude::*;
use crate::assoc::{has_key, keys_unique, lemma_lookup_unique, lemma_put, lookup, put, set_value};
use crate::layer::str_is;
use crate::text::{push_str_chars, string_from_chars};

verus! {

/// How many local UDP clients a listener remembers.
pub const MAX_UDP_AFFINITIES_PER_LISTENER: usize = 4096;

/// How long an affinity lasts without traffic.
pub const UDP_AFFINITY_IDLE_TIMEOUT_NS: u64 = 30_000_000_000;

/// Every how many datagrams the table is swept.
pub const UDP_AFFINITY_SWEEP_INTERVAL: u64 = 256;

/// A local UDP client: its address (IPv6, or IPv4 in the low 32 bits) and
/// port.
#[derive(Debug, Clone, Copy, PartialEq, Eq, Structural)]
pub struct UdpClientKey {
    pub v6: bool,
    pub addr: u128,
    pub port: u16,
}

/// The connection a client sticks to and when it was last seen.
pub type AffinityV = (usize, u64);

/// Whether an entry seen at `last_seen` is still live at `now`: less than
/// the idle timeout has passed (a clock that went back counts as none).
pub open spec fn fresh_at(last_seen: u64, now: u64) -> bool {
    (if now >= last_seen {
        now - last_seen
    } else {
        0
    }) < UDP_AFFINITY_IDLE_TIMEOUT_NS
}

/// The index of the first entry seen longest ago, in a non-empty table.
pub open spec fn oldest_index(s: Seq<(UdpClientKey, AffinityV)>) -> int
    decreases s.len(),
{
    if s.len() <= 1 {
        0
    } else {
        let i = oldest_index(s.drop_last());
        if s.last().1.1 < s[i].1.1 {
            s.len() - 1
        } else {
            i
        }
    }
}

/// The oldest entry is in the table and no entry was seen before it.
pub proof fn lemma_oldest_index(s: Seq<(UdpClientKey, AffinityV)>)
    requires
        s.len() > 0,
    ensures
        0 <= oldest_index(s) < s.len(),
        forall|j: int| 0 <= j < s.len() ==> s[oldest_index(s)].1.1 <= #[trigger] s[j].1.1,
    decreases s.len(),
{
    if s.len() > 1 {
        let d = s.drop_last();
        lemma_oldest_index(d);
        assert forall|j: int| 0 <= j < s.len() implies s[oldest_index(s)].1.1
            <= #[trigger] s[j].1.1 by {
            if j < s.len() - 1 {
                assert(s[j] == d[j]);
            }
            assert(s[oldest_index(d)] == d[oldest_index(d)]);
        }
    }
}

/// The table after `key` was delivered on connection `stable_id` at `now`:
/// when it is full, the entry seen longest ago leaves first.
pub open spec fn record_spec(
    s: Seq<(UdpClientKey, AffinityV)>,
    key: UdpClientKey,
    stable_id: usize,
    now: u64,
) -> Seq<(UdpClientKey, AffinityV)> {
    let room = if s.len() >= MAX_UDP_AFFINITIES_PER_LISTENER {
        s.remove(oldest_index(s))
    } else {
        s
    };
    put(room, key, (stable_id, now))
}

/// The table kept by a sweep at `now` when the connections still open are
/// `open`: live entries on open connections.
pub open spec fn sweep_spec(s: Seq<(UdpClientKey, AffinityV)>, now: u64, open: Seq<usize>) -> Seq<
    (UdpClientKey, AffinityV),
> {
    s.filter(sweep_keeps(now, open))
}

/// Whether a sweep at `now` keeps an entry, the connections still open
/// being `open`.
pub open spec fn sweep_keeps(now: u64, open: Seq<usize>) -> spec_fn((UdpClientKey, AffinityV)) -> bool {
    |e: (UdpClientKey, AffinityV)| fresh_at(e.1.1, now) && open.contains(e.1.0)
}

/// The affinities of one UDP listener.
pub struct UdpAffinityTable {
    entries: Vec<(UdpClientKey, (usize, u64))>,
}

impl View for UdpAffinityTable {
    type V = Seq<(UdpClientKey, AffinityV)>;

    closed spec fn view(&self) -> Self::V {
        self.entries@
    }
}

fn key_eq(a: UdpClientKey, b: UdpClientKey) -> (r: bool)
    ensures
        r == (a == b),
{
    a.v6 == b.v6 && a.addr == b.addr && a.port == b.port
}

impl UdpAffinityTable {
    /// Each client once, within the bound.
    pub open spec fn wf(&self) -> bool {
        &&& keys_unique(self@)
        &&& self@.len() <= MAX_UDP_AFFINITIES_PER_LISTENER
    }

    /// An empty table.
    pub fn new() -> (r: Self)
        ensures
            r.wf(),
            r@.len() == 0,
    {
        let r = UdpAffinityTable { entries: Vec::new() };
        assert(r@.len() == 0);
        r
    }

    /// The number of clients remembered.
    pub fn len(&self) -> (r: usize)
        ensures
            r == self@.len(),
    {
        self.entries.len()
    }

    fn position(&self, key: UdpClientKey) -> (r: Option<usize>)
        ensures
            match r {
                Some(i) => i < self@.len() && self@[i as int].0 == key,
                None => !has_key(self@, key),
            },
    {
        let mut i: usize = 0;
        while i < self.entries.len()
            invariant
                i <= self.entries@.len(),
                forall|j: int| 0 <= j < i ==> #[trigger] self@[j].0 != key,
            decreases self.entries@.len() - i,
        {
            if key_eq(self.entries[i].0, key) {
                return Some(i);
            }
            i = i + 1;
        }
        assert(!has_key(self@, key)) by {
            if has_key(self@, key) {
                let j = choose|j: int| 0 <= j < self@.len() && #[trigger] self@[j].0 == key;
            }
        }
        None
    }

    /// The connection `key` sticks to, if any.
    pub fn get(&self, key: UdpClientKey) -> (r: Option<usize>)
        requires
            self.wf(),
        ensures
            r == match lookup(self@, key) {
                Some(a) => Some(a.0),
                None => None::<usize>,
            },
    {
        proof {
            lemma_lookup_unique(self@, key);
        }
        match self.position(key) {
            Some(i) => Some(self.entries[i].1.0),
            None => None,
        }
    }

    /// Marks `key` seen at `now` after a delivery on its connection.
    pub fn touch(&mut self, key: UdpClientKey, now: u64)
        requires
            old(self).wf(),
        ensures
            final(self).wf(),
            final(self)@ == match lookup(old(self)@, key) {
                Some(a) => set_value(old(self)@, key, (a.0, now)),
                None => old(self)@,
            },
    {
        let ghost s = self@;
        proof {
            lemma_lookup_unique(s, key);
        }
        if let Some(i) = self.position(key) {
            let id = self.entries[i].1.0;
            self.entries.set(i, (key, (id, now)));
            proof {
                assert(has_key(s, key)) by {
                    assert(s[i as int].0 == key);
                }
                lemma_put(s, key, (id, now));
            }
            assert(self@ =~= set_value(s, key, (id, now))) by {
                assert forall|j: int| 0 <= j < s.len() implies #[trigger] self@[j] == (if s[j].0
                    == key {
                    (key, (id, now))
                } else {
                    s[j]
                }) by {
                    if j != i {
                        assert(s[j].0 != s[i as int].0);
                    }
                }
            }
        }
    }

    /// Forgets `key` (its connection failed).
    pub fn remove(&mut self, key: UdpClientKey)
        requires
            old(self).wf(),
        ensures
            final(self).wf(),
            lookup(final(self)@, key) is None,
            forall|o: UdpClientKey| o != key ==> #[trigger] lookup(final(self)@, o) == lookup(
                old(self)@,
                o,
            ),
    {
        let ghost s = self@;
        match self.position(key) {
            Some(i) => {
                self.entries.remove(i);
                proof {
                    lemma_remove_unique(s, i as int);
                }
            },
            None => {
                proof {
                    lemma_lookup_unique(s, key);
                }
            },
        }
    }

    /// Remembers that `key` was delivered on connection `stable_id` at
    /// `now`; when the table is full, the entry seen longest ago leaves
    /// first.
    pub fn record(&mut self, key: UdpClientKey, stable_id: usize, now: u64)
        requires
            old(self).wf(),
        ensures
            final(self).wf(),
            final(self)@ == record_spec(old(self)@, key, stable_id, now),
    {
        let ghost s = self@;
        if self.entries.len() >= MAX_UDP_AFFINITIES_PER_LISTENER {
            let mut oldest: usize = 0;
            let mut j: usize = 1;
            proof {
                assert(s.take(1).drop_last() =~= s.take(0));
            }
            while j < self.entries.len()
                invariant
                    1 <= j <= self.entries@.len(),
                    self@ == s,
                    s.len() >= MAX_UDP_AFFINITIES_PER_LISTENER,
                    oldest == oldest_index(s.take(j as int)),
                decreases self.entries@.len() - j,
            {
                assert(s.take(j + 1).drop_last() =~= s.take(j as int));
                proof {
                    lemma_oldest_index(s.take(j as int));
                }
                if self.entries[j].1.1 < self.entries[oldest].1.1 {
                    oldest = j;
                }
                j = j + 1;
            }
            assert(s.take(j as int) =~= s);
            proof {
                lemma_oldest_index(s);
            }
            self.entries.remove(oldest);
            proof {
                lemma_remove_unique(s, oldest as int);
            }
        }
        let ghost room = self@;
        proof {
            lemma_put(room, key, (stable_id, now));
        }
        match self.position(key) {
            Some(i) => {
                self.entries.set(i, (key, (stable_id, now)));
                proof {
                    assert(has_key(room, key)) by {
                        assert(room[i as int].0 == key);
                    }
                }
                assert(self@ =~= set_value(room, key, (stable_id, now))) by {
                    assert forall|k: int| 0 <= k < room.len() implies #[trigger] self@[k] == (if room[k].0
                        == key {
                        (key, (stable_id, now))
                    } else {
                        room[k]
                    }) by {
                        if k != i {
                            assert(room[k].0 != room[i as int].0);
                        }
                    }
                }
            },
            None => {
                self.entries.push((key, (stable_id, now)));
                assert(self@ =~= room.push((key, (stable_id, now))));
            },
        }
    }

    /// Sweeps at `now`: keeps the entries still live whose connection is
    /// among `open`.
    pub fn sweep(&mut self, now: u64, open: &[usize])
        requires
            old(self).wf(),
        ensures
            final(self).wf(),
            final(self)@ == sweep_spec(old(self)@, now, open@),
    {
        let ghost s = self@;
        let ghost f = sweep_keeps(now, open@);
        let mut kept: Vec<(UdpClientKey, (usize, u64))> = Vec::new();
        let mut i: usize = 0;
        while i < self.entries.len()
            invariant
                i <= self.entries@.len(),
                self@ == s,
                f == sweep_keeps(now, open@),
                kept@ == s.take(i as int).filter(f),
            decreases self.entries@.len() - i,
        {
            let e = self.entries[i];
            let age = if now >= e.1.1 {
                now - e.1.1
            } else {
                0
            };
            let open_now = contains_id(open, e.1.0);
            assert(s.take(i + 1).drop_last() =~= s.take(i as int));
            proof {
                reveal(Seq::filter);
                assert(s.take(i + 1).last() == s[i as int]);
                assert(self@[i as int] == e);
                assert(f(e) == (age < UDP_AFFINITY_IDLE_TIMEOUT_NS && open_now));
                assert(s.take(i + 1).filter(f) == if f(s[i as int]) {
                    s.take(i as int).filter(f).push(s[i as int])
                } else {
                    s.take(i as int).filter(f)
                });
            }
            if age < UDP_AFFINITY_IDLE_TIMEOUT_NS && open_now {
                kept.push(e);
            }
            i = i + 1;
        }
        assert(s.take(i as int) =~= s);
        proof {
            lemma_filter_keeps_unique(s, f);
            s.lemma_filter_len(f);
        }
        self.entries = kept;
    }
}

fn contains_id(ids: &[usize], id: usize) -> (r: bool)
    ensures
        r == ids@.contains(id),
{
    let mut i: usize = 0;
    while i < ids.len()
        invariant
            i <= ids@.len(),
            forall|j: int| 0 <= j < i ==> ids@[j] != id,
        decreases ids@.len() - i,
    {
        if ids[i] == id {
            assert(ids@[i as int] == id);
            return true;
        }
        i = i + 1;
    }
    false
}

/// Removing one entry keeps each key once, leaves nothing under its key
/// and every other key as it was.
pub proof fn lemma_remove_unique<V>(s: Seq<(UdpClientKey, V)>, i: int)
    requires
        keys_unique(s),
        0 <= i < s.len(),
    ensures
        keys_unique(s.remove(i)),
        lookup(s.remove(i), s[i].0) is None,
        forall|o: UdpClientKey| o != s[i].0 ==> #[trigger] lookup(s.remove(i), o) == lookup(s, o),
{
    let r = s.remove(i);
    assert(keys_unique(r)) by {
        assert forall|a: int, b: int| 0 <= a < b < r.len() implies #[trigger] r[a].0
            != #[trigger] r[b].0 by {
            let a2 = if a < i { a } else { a + 1 };
            let b2 = if b < i { b } else { b + 1 };
            assert(r[a] == s[a2] && r[b] == s[b2]);
        }
    }
    lemma_lookup_unique(r, s[i].0);
    assert(!has_key(r, s[i].0)) by {
        if has_key(r, s[i].0) {
            let j = choose|j: int| 0 <= j < r.len() && #[trigger] r[j].0 == s[i].0;
            if j < i {
                assert(r[j] == s[j]);
            } else {
                assert(r[j] == s[j + 1]);
            }
        }
    }
    assert forall|o: UdpClientKey| o != s[i].0 implies #[trigger] lookup(r, o) == lookup(s, o) by {
        lemma_lookup_unique(r, o);
        lemma_lookup_unique(s, o);
        if has_key(s, o) {
            let j = choose|j: int| 0 <= j < s.len() && #[trigger] s[j].0 == o;
            if j < i {
                assert(r[j] == s[j]);
            } else {
                assert(r[j - 1] == s[j]);
            }
        } else if has_key(r, o) {
            let j = choose|j: int| 0 <= j < r.len() && #[trigger] r[j].0 == o;
            if j < i {
                assert(r[j] == s[j]);
            } else {
                assert(r[j] == s[j + 1]);
            }
        }
    }
}

/// Keeping some of the entries keeps each key once.
pub proof fn lemma_filter_keeps_unique<V>(
    s: Seq<(UdpClientKey, V)>,
    f: spec_fn((UdpClientKey, V)) -> bool,
)
    requires
        keys_unique(s),
    ensures
        keys_unique(s.filter(f)),
    decreases s.len(),
{
    reveal(Seq::filter);
    if s.len() > 0 {
        let d = s.drop_last();
        assert(keys_unique(d)) by {
            assert forall|a: int, b: int| 0 <= a < b < d.len() implies #[trigger] d[a].0
                != #[trigger] d[b].0 by {
                assert(d[a] == s[a] && d[b] == s[b]);
            }
        }
        lemma_filter_keeps_unique(d, f);
        let fd = d.filter(f);
        if f(s.last()) {
            let r = fd.push(s.last());
            assert forall|a: int, b: int| 0 <= a < b < r.len() implies #[trigger] r[a].0
                != #[trigger] r[b].0 by {
                if b == fd.len() {
                    assert(fd.contains(fd[a]));
                    d.lemma_filter_contains_rev(f, fd[a]);
                    let k = choose|k: int| 0 <= k < d.len() && d[k] == fd[a];
                    assert(s[k] == d[k]);
                    assert(s[k].0 != s[s.len() - 1].0);
                }
            }
        }
    }
}

/// Keeping a client on the connection it was just delivered on: a lookup
/// of it then gives that connection, whatever the table held.
pub proof fn law_recorded_affinity_sticks(
    s: Seq<(UdpClientKey, AffinityV)>,
    key: UdpClientKey,
    stable_id: usize,
    now: u64,
)
    requires
        keys_unique(s),
        s.len() <= MAX_UDP_AFFINITIES_PER_LISTENER,
    ensures
        lookup(record_spec(s, key, stable_id, now), key) == Some((stable_id, now)),
        record_spec(s, key, stable_id, now).len() <= MAX_UDP_AFFINITIES_PER_LISTENER,
{
    let room = if s.len() >= MAX_UDP_AFFINITIES_PER_LISTENER {
        lemma_oldest_index(s);
        lemma_remove_unique(s, oldest_index(s));
        s.remove(oldest_index(s))
    } else {
        s
    };
    lemma_put(room, key, (stable_id, now));
}

/// A sweep keeps exactly the live entries on open connections.
pub proof fn law_sweep_keeps_live_entries(
    s: Seq<(UdpClientKey, AffinityV)>,
    now: u64,
    open: Seq<usize>,
    e: (UdpClientKey, AffinityV),
)
    ensures
        sweep_spec(s, now, open).contains(e) <==> (s.contains(e) && fresh_at(e.1.1, now)
            && open.contains(e.1.0)),
{
    let f = sweep_keeps(now, open);
    if s.filter(f).contains(e) {
        s.lemma_filter_contains_rev(f, e);
        let k = choose|k: int| 0 <= k < s.filter(f).len() && s.filter(f)[k] == e;
        s.lemma_filter_pred(f, k);
    }
    if s.contains(e) && f(e) {
        let k = choose|k: int| 0 <= k < s.len() && s[k] == e;
        s.lemma_filter_contains(f, k);
    }
}

/// Whether the `count`-th datagram received (counting wraps) sweeps the
/// table.
pub fn sweep_due(count: u64) -> (r: bool)
    ensures
        r == (count % UDP_AFFINITY_SWEEP_INTERVAL == 0),
{
    count % UDP_AFFINITY_SWEEP_INTERVAL == 0
}

/// The local sockets of the UDP listeners, by proxy name.
pub struct UdpListenerRegistry<S> {
    sockets: Vec<(String, S)>,
}

impl<S> View for UdpListenerRegistry<S> {
    type V = Seq<(Seq<char>, S)>;

    closed spec fn view(&self) -> Self::V {
        self.sockets@.map_values(|e: (String, S)| (e.0@, e.1))
    }
}

impl<S> UdpListenerRegistry<S> {
    /// Each proxy name once.
    pub open spec fn wf(&self) -> bool {
        keys_unique(self@)
    }

    /// No listener yet.
    pub fn new() -> (r: Self)
        ensures
            r.wf(),
            r@.len() == 0,
    {
        let r = UdpListenerRegistry { sockets: Vec::new() };
        assert(r@.len() == 0);
        r
    }

    fn position(&self, proxy_name: &str) -> (r: Option<usize>)
        ensures
            match r {
                Some(i) => i < self@.len() && self@[i as int].0 == proxy_name@,
                None => !has_key(self@, proxy_name@),
            },
    {
        let mut i: usize = 0;
        while i < self.sockets.len()
            invariant
                i <= self.sockets@.len(),
                forall|j: int| 0 <= j < i ==> #[trigger] self@[j].0 != proxy_name@,
            decreases self.sockets@.len() - i,
        {
            if str_is(self.sockets[i].0.as_str(), proxy_name) {
                return Some(i);
            }
            i = i + 1;
        }
        assert(!has_key(self@, proxy_name@)) by {
            if has_key(self@, proxy_name@) {
                let j = choose|j: int| 0 <= j < self@.len() && #[trigger] self@[j].0 == proxy_name@;
            }
        }
        None
    }

    /// Makes `socket` answer for `proxy_name`, replacing any earlier one.
    pub fn register(&mut self, proxy_name: &str, socket: S)
        requires
            old(self).wf(),
        ensures
            final(self).wf(),
            final(self)@ == put(old(self)@, proxy_name@, socket),
    {
        let ghost s = self@;
        proof {
            lemma_put(s, proxy_name@, socket);
        }
        match self.position(proxy_name) {
            Some(i) => {
                self.sockets.set(i, (proxy_name.to_owned(), socket));
                assert(has_key(s, proxy_name@)) by {
                    assert(s[i as int].0 == proxy_name@);
                }
                assert(self@ =~= set_value(s, proxy_name@, socket)) by {
                    assert forall|k: int| 0 <= k < s.len() implies #[trigger] self@[k] == (if s[k].0
                        == proxy_name@ {
                        (proxy_name@, socket)
                    } else {
                        s[k]
                    }) by {
                        if k != i {
                            assert(s[k].0 != s[i as int].0);
                        }
                    }
                }
            },
            None => {
                self.sockets.push((proxy_name.to_owned(), socket));
                assert(self@ =~= s.push((proxy_name@, socket)));
            },
        }
    }

    /// The socket a reply for `proxy_name` is sent from, or the error the
    /// reply fails with.
    pub fn socket_for(&self, proxy_name: &str) -> (r: Result<&S, String>)
        requires
            self.wf(),
        ensures
            match lookup(self@, proxy_name@) {
                Some(s) => r matches Ok(x) && *x == s,
                None => r matches Err(m) && m@ == "no udp listener for "@ + proxy_name@,
            },
    {
        proof {
            lemma_lookup_unique(self@, proxy_name@);
        }
        match self.position(proxy_name) {
            Some(i) => Ok(&self.sockets[i].1),
            None => {
                let mut out: Vec<char> = Vec::new();
                push_str_chars(&mut out, "no udp listener for ");
                push_str_chars(&mut out, proxy_name);
                Err(string_from_chars(out.as_slice()))
            },
        }
    }
}

} // verus!
