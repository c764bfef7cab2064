//! The egress DNS cache: resolved addresses by host and port, handed out
//! in turn while fresh, kept as a stale fallback after they expire, and
//! given a short new lease when a refresh fails. Times are nanoseconds on
//! a monotonic clock that the caller reads; the lookup itself is the
//! caller's, which hands its outcome back here.

use vstd::prelude::*;
use crate::assoc::{has_key, keys_unique, lemma_lookup_unique, lemma_put, lookup, put, set_value};
use crate::layer::str_is;
use crate::text::{decimal, push_decimal, push_str_chars, string_from_chars};

verus! {

/// How long a cached entry is trusted again after a refresh of it failed.
pub const DNS_FAILURE_STALE_BACKOFF_NS: u64 = 10_000_000_000;

/// The position after `c` in a counter that wraps at `usize::MAX`.
pub open spec fn next_cursor(c: nat) -> nat {
    if c >= usize::MAX {
        0
    } else {
        c + 1
    }
}

/// Resolved addresses, when they stop being fresh, and the position of the
/// next one to hand out.
pub struct DnsEntry<A> {
    pub addrs: Vec<A>,
    pub expires_at: u64,
    next_index: usize,
}

impl<A> View for DnsEntry<A> {
    type V = (Seq<A>, u64, nat);

    closed spec fn view(&self) -> (Seq<A>, u64, nat) {
        (self.addrs@, self.expires_at, self.next_index as nat)
    }
}

/// The address an entry hands out next, and the entry after it: the
/// addresses in turn, starting over after the last; none from an entry
/// without addresses.
pub open spec fn pick<A>(e: (Seq<A>, u64, nat)) -> (Option<A>, (Seq<A>, u64, nat)) {
    if e.0.len() == 0 {
        (None, e)
    } else {
        (Some(e.0[(e.2 % e.0.len()) as int]), (e.0, e.1, next_cursor(e.2)))
    }
}

impl<A: Copy> DnsEntry<A> {
    /// An entry for `addrs`, fresh until `expires_at`, that hands out the
    /// first address first.
    pub fn new(addrs: Vec<A>, expires_at: u64) -> (r: DnsEntry<A>)
        ensures
            r@ == (addrs@, expires_at, 0nat),
    {
        DnsEntry { addrs, expires_at, next_index: 0 }
    }

    /// The next address in turn.
    pub fn next_addr(&mut self) -> (r: Option<A>)
        ensures
            (r, final(self)@) == pick(old(self)@),
    {
        let len = self.addrs.len();
        if len == 0 {
            return None;
        }
        let idx = self.next_index;
        self.next_index = if idx == usize::MAX {
            0
        } else {
            idx + 1
        };
        Some(self.addrs[idx % len])
    }
}

/// The address index handed out on the `j`-th turn from position `c`, for
/// `n` addresses.
pub open spec fn turn_index(c: nat, j: nat, n: nat) -> nat {
    (c + j) % n
}

/// Whether address `i` is handed out within `n` turns from position `c`.
pub open spec fn handed_out(c: nat, n: nat, i: nat) -> bool {
    exists|j: nat| j < n && #[trigger] turn_index(c, j, n) == i
}

/// Over as many consecutive turns as an entry has addresses, starting
/// anywhere, each address is handed out exactly once.
pub proof fn law_round_robin_is_fair(n: nat, c: nat)
    requires
        n > 0,
    ensures
        forall|j1: nat, j2: nat|
            j1 < j2 < n ==> #[trigger] turn_index(c, j1, n) != #[trigger] turn_index(c, j2, n),
        forall|i: nat| i < n ==> #[trigger] handed_out(c, n, i),
{
    assert forall|j1: nat, j2: nat| j1 < j2 < n implies #[trigger] turn_index(c, j1, n)
        != #[trigger] turn_index(c, j2, n) by {
        let q1 = (c + j1) / n;
        let q2 = (c + j2) / n;
        vstd::arithmetic::div_mod::lemma_fundamental_div_mod((c + j1) as int, n as int);
        vstd::arithmetic::div_mod::lemma_fundamental_div_mod((c + j2) as int, n as int);
        if (c + j1) % n == (c + j2) % n {
            let d = q2 - q1;
            assert(n * q2 - n * q1 == j2 - j1);
            assert(n * d == j2 - j1) by (nonlinear_arith)
                requires
                    d == q2 - q1,
                    n * q2 - n * q1 == j2 - j1,
            ;
            assert(false) by (nonlinear_arith)
                requires
                    n * d == j2 - j1,
                    0 < j2 - j1 < n,
                    n > 0,
            ;
        }
    }
    assert forall|i: nat| i < n implies #[trigger] handed_out(c, n, i) by {
        let ni = n as int;
        let ci = c as int;
        let ii = i as int;
        vstd::arithmetic::div_mod::lemma_fundamental_div_mod(ci, ni);
        let q = ci / ni;
        let r = ci % ni;
        let ji: int = if ii >= r {
            ii - r
        } else {
            ni - r + ii
        };
        let qq: int = if ii >= r {
            q
        } else {
            q + 1
        };
        assert(ci + ji == ni * qq + ii) by (nonlinear_arith)
            requires
                ci == ni * q + r,
                ji == (if ii >= r {
                    ii - r
                } else {
                    ni - r + ii
                }),
                qq == (if ii >= r {
                    q
                } else {
                    q + 1
                }),
        ;
        vstd::arithmetic::div_mod::lemma_mod_multiples_vanish(qq, ii, ni);
        vstd::arithmetic::div_mod::lemma_small_mod(i, n);
        let j = ji as nat;
        assert(turn_index(c, j, n) == i);
    }
}

/// The key of an entry: host and port.
pub type DnsKeyV = (Seq<char>, u16);

/// How a lookup ended.
pub enum LookupOutcome<A> {
    /// It gave these addresses.
    Resolved(Vec<A>),
    /// It failed with this message.
    Failed(String),
    /// It did not finish in time.
    TimedOut,
}

/// What a lookup's waiters are told: its addresses, or why there are none.
pub open spec fn lookup_result<A>(o: LookupOutcome<A>) -> Result<Seq<A>, Seq<char>> {
    match o {
        LookupOutcome::Resolved(v) => if v@.len() == 0 {
            Err("lookup returned empty address list"@)
        } else {
            Ok(v@)
        },
        LookupOutcome::Failed(m) => Err(m@),
        LookupOutcome::TimedOut => Err("DNS resolution timed out"@),
    }
}

/// How the wait on a lookup that another request started ended.
pub enum InflightOutcome<A> {
    /// The lookup reported this.
    Reported(Result<Vec<A>, String>),
    /// The channel it reports on failed with this message.
    ChannelFailed(String),
    /// No report came in time.
    TimedOut,
}

/// Host and port as `host:port`.
pub open spec fn host_port(host: Seq<char>, port: u16) -> Seq<char> {
    host + ":"@ + decimal(port as nat)
}

/// What a wait on another request's lookup gives, when the cache holds
/// `stale` (a cached address, if any, handed out in turn): a cached address
/// first, else the first reported address, else the reason.
pub open spec fn inflight_result<A>(
    o: InflightOutcome<A>,
    stale: Option<A>,
    host: Seq<char>,
    port: u16,
) -> Result<A, Seq<char>> {
    match stale {
        Some(a) => Ok(a),
        None => match o {
            InflightOutcome::Reported(Ok(v)) => if v@.len() > 0 {
                Ok(v@[0])
            } else {
                Err("no resolved IP for "@ + host_port(host, port))
            },
            InflightOutcome::Reported(Err(m)) => Err("DNS lookup failed: "@ + m@),
            InflightOutcome::ChannelFailed(m) => Err(
                "DNS lookup channel failed for "@ + host_port(host, port) + ": "@ + m@,
            ),
            InflightOutcome::TimedOut => Err(
                "DNS lookup did not complete for "@ + host_port(host, port),
            ),
        },
    }
}

/// The cache's entries after the address of `k` is handed out in turn, and
/// that address; unchanged, and none, without an entry.
pub open spec fn stale_spec<A>(s: Seq<(DnsKeyV, (Seq<A>, u64, nat))>, k: DnsKeyV) -> (
    Option<A>,
    Seq<(DnsKeyV, (Seq<A>, u64, nat))>,
) {
    match lookup(s, k) {
        Some(e) => (pick(e).0, set_value(s, k, pick(e).1)),
        None => (None, s),
    }
}

/// As `stale_spec`, but only from an entry still fresh at `now`.
pub open spec fn fresh_spec<A>(s: Seq<(DnsKeyV, (Seq<A>, u64, nat))>, k: DnsKeyV, now: u64) -> (
    Option<A>,
    Seq<(DnsKeyV, (Seq<A>, u64, nat))>,
) {
    match lookup(s, k) {
        Some(e) => if now < e.1 {
            stale_spec(s, k)
        } else {
            (None, s)
        },
        None => (None, s),
    }
}

/// The cache's entries after a lookup of `k` that ended at `now` with
/// `result`: new addresses replace the entry, fresh for `ttl`; a failure
/// leaves the addresses as they were and trusts them for the backoff.
pub open spec fn after_lookup<A>(
    s: Seq<(DnsKeyV, (Seq<A>, u64, nat))>,
    k: DnsKeyV,
    now: u64,
    ttl: u64,
    result: Result<Seq<A>, Seq<char>>,
) -> Seq<(DnsKeyV, (Seq<A>, u64, nat))> {
    match result {
        Ok(v) => put(s, k, (v, (now + ttl) as u64, 0nat)),
        Err(_) => match lookup(s, k) {
            Some(e) => set_value(s, k, (e.0, (now + DNS_FAILURE_STALE_BACKOFF_NS) as u64, e.2)),
            None => s,
        },
    }
}

/// Addresses a lookup just gave are handed out, first address first, to
/// requests while they stay fresh.
pub proof fn law_fresh_after_lookup<A>(
    s: Seq<(DnsKeyV, (Seq<A>, u64, nat))>,
    k: DnsKeyV,
    now: u64,
    ttl: u64,
    addrs: Seq<A>,
    t: u64,
)
    requires
        keys_unique(s),
        addrs.len() > 0,
        now + ttl <= u64::MAX,
        t < now + ttl,
    ensures
        fresh_spec(after_lookup(s, k, now, ttl, Ok(addrs)), k, t).0 == Some(addrs[0]),
{
    lemma_put(s, k, (addrs, (now + ttl) as u64, 0nat));
}

/// When a refresh fails, the addresses already cached keep being handed
/// out in turn, fresh again for the backoff.
pub proof fn law_failed_refresh_keeps_addresses<A>(
    s: Seq<(DnsKeyV, (Seq<A>, u64, nat))>,
    k: DnsKeyV,
    now: u64,
    ttl: u64,
    reason: Seq<char>,
    t: u64,
)
    requires
        keys_unique(s),
        lookup(s, k) is Some,
        lookup(s, k).unwrap().0.len() > 0,
        now + DNS_FAILURE_STALE_BACKOFF_NS <= u64::MAX,
        t < now + DNS_FAILURE_STALE_BACKOFF_NS,
    ensures
        fresh_spec(after_lookup(s, k, now, ttl, Err(reason)), k, t).0 == pick(lookup(s, k).unwrap()).0,
        stale_spec(after_lookup(s, k, now, ttl, Err(reason)), k).0 == pick(lookup(s, k).unwrap()).0,
{
    let e = lookup(s, k).unwrap();
    lemma_lookup_unique(s, k);
    assert(has_key(s, k)) by {
        if !has_key(s, k) {
            assert(lookup(s, k) is None);
        }
    }
    lemma_put(s, k, (e.0, (now + DNS_FAILURE_STALE_BACKOFF_NS) as u64, e.2));
}

/// A lookup of one host and port, and handing out one of its addresses,
/// leave what every other host and port gives as it was.
pub proof fn law_other_hosts_untouched<A>(
    s: Seq<(DnsKeyV, (Seq<A>, u64, nat))>,
    k: DnsKeyV,
    other: DnsKeyV,
    now: u64,
    ttl: u64,
    result: Result<Seq<A>, Seq<char>>,
)
    requires
        keys_unique(s),
        other != k,
    ensures
        lookup(after_lookup(s, k, now, ttl, result), other) == lookup(s, other),
        lookup(stale_spec(s, k).1, other) == lookup(s, other),
{
    lemma_lookup_unique(s, k);
    match result {
        Ok(v) => {
            lemma_put(s, k, (v, (now + ttl) as u64, 0nat));
        },
        Err(_) => {
            if let Some(e) = lookup(s, k) {
                assert(has_key(s, k)) by {
                    if !has_key(s, k) {
                        assert(lookup(s, k) is None);
                    }
                }
                lemma_put(s, k, (e.0, (now + DNS_FAILURE_STALE_BACKOFF_NS) as u64, e.2));
            }
        },
    }
    if let Some(e) = lookup(s, k) {
        assert(has_key(s, k)) by {
            if !has_key(s, k) {
                assert(lookup(s, k) is None);
            }
        }
        lemma_put(s, k, pick(e).1);
    }
}

/// The next step of resolving a host and port.
pub enum ResolveStep<A> {
    /// A fresh cached address answers it.
    Cached(A),
    /// Another request is looking the host up: wait for its report and
    /// settle with `finish_wait`.
    AwaitInflight,
    /// Look the host up, then record the outcome with `finish_lookup` and
    /// settle with `finish_wait`.
    StartLookup,
}

/// Resolved addresses by host and port.
pub struct EgressDnsCache<A> {
    entries: Vec<(String, u16, DnsEntry<A>)>,
    ttl: u64,
}

/// An entry of the cache by its contents.
pub open spec fn dns_entry_view<A>(e: (String, u16, DnsEntry<A>)) -> (DnsKeyV, (Seq<A>, u64, nat)) {
    ((e.0@, e.1), e.2@)
}

impl<A> View for EgressDnsCache<A> {
    type V = Seq<(DnsKeyV, (Seq<A>, u64, nat))>;

    closed spec fn view(&self) -> Self::V {
        self.entries@.map_values(|e: (String, u16, DnsEntry<A>)| dns_entry_view(e))
    }
}

impl<A: Copy> EgressDnsCache<A> {
    /// How long new addresses stay fresh.
    pub closed spec fn ttl_spec(&self) -> u64 {
        self.ttl
    }

    /// Each host and port once.
    pub open spec fn wf(&self) -> bool {
        keys_unique(self@)
    }

    /// An empty cache whose addresses stay fresh for `ttl`.
    pub fn new(ttl: u64) -> (r: EgressDnsCache<A>)
        ensures
            r.wf(),
            r@.len() == 0,
            r.ttl_spec() == ttl,
    {
        let r = EgressDnsCache { entries: Vec::new(), ttl };
        assert(r@.len() == 0);
        r
    }

    fn position(&self, host: &str, port: u16) -> (r: Option<usize>)
        requires
            self.wf(),
        ensures
            match r {
                Some(i) => i < self@.len() && self@[i as int].0 == (host@, port),
                None => !has_key(self@, (host@, port)),
            },
    {
        let mut i: usize = 0;
        while i < self.entries.len()
            invariant
                i <= self.entries@.len(),
                self@ == self.entries@.map_values(
                    |e: (String, u16, DnsEntry<A>)| dns_entry_view(e),
                ),
                forall|j: int| 0 <= j < i ==> #[trigger] self@[j].0 != (host@, port),
            decreases self.entries@.len() - i,
        {
            assert(self@[i as int] == dns_entry_view(self.entries@[i as int]));
            if self.entries[i].1 == port && str_is(self.entries[i].0.as_str(), host) {
                return Some(i);
            }
            i = i + 1;
        }
        assert(!has_key(self@, (host@, port))) by {
            if has_key(self@, (host@, port)) {
                let j = choose|j: int| 0 <= j < self@.len() && #[trigger] self@[j].0 == (host@, port);
            }
        }
        None
    }

    /// Hands out the next address of the entry at `i` in turn.
    fn pick_at(&mut self, i: usize) -> (r: Option<A>)
        requires
            old(self).wf(),
            i < old(self)@.len(),
        ensures
            final(self).ttl_spec() == old(self).ttl_spec(),
            (r, final(self)@) == (
                pick(old(self)@[i as int].1).0,
                set_value(old(self)@, old(self)@[i as int].0, pick(old(self)@[i as int].1).1),
            ),
    {
        let ghost s = self@;
        let ghost k = s[i as int].0;
        let (host, port, mut entry) = self.entries.remove(i);
        let r = entry.next_addr();
        self.entries.insert(i, (host, port, entry));
        assert(self@ =~= set_value(s, k, pick(s[i as int].1).1)) by {
            assert forall|j: int| 0 <= j < s.len() implies #[trigger] self@[j] == (if s[j].0 == k {
                (k, pick(s[i as int].1).1)
            } else {
                s[j]
            }) by {
                if j != i {
                    assert(s[j].0 != s[i as int].0);
                }
            }
        }
        r
    }

    /// A cached address for `host` and `port`, handed out in turn, however
    /// old the entry.
    pub fn get_stale(&mut self, host: &str, port: u16) -> (r: Option<A>)
        requires
            old(self).wf(),
        ensures
            final(self).wf(),
            final(self).ttl_spec() == old(self).ttl_spec(),
            (r, final(self)@) == stale_spec(old(self)@, (host@, port)),
    {
        let ghost s = self@;
        proof {
            lemma_lookup_unique(s, (host@, port));
        }
        match self.position(host, port) {
            Some(i) => {
                assert(s[i as int].0 == (host@, port));
                proof {
                    lemma_put(s, (host@, port), pick(s[i as int].1).1);
                    assert(has_key(s, (host@, port)));
                }
                self.pick_at(i)
            },
            None => None,
        }
    }

    /// A cached address for `host` and `port`, handed out in turn, from an
    /// entry still fresh at `now`.
    pub fn get_fresh(&mut self, host: &str, port: u16, now: u64) -> (r: Option<A>)
        requires
            old(self).wf(),
        ensures
            final(self).wf(),
            final(self).ttl_spec() == old(self).ttl_spec(),
            (r, final(self)@) == fresh_spec(old(self)@, (host@, port), now),
    {
        let ghost s = self@;
        proof {
            lemma_lookup_unique(s, (host@, port));
        }
        match self.position(host, port) {
            Some(i) => {
                assert(s[i as int].0 == (host@, port));
                if now < self.entries[i].2.expires_at {
                    proof {
                        lemma_put(s, (host@, port), pick(s[i as int].1).1);
                        assert(has_key(s, (host@, port)));
                    }
                    self.pick_at(i)
                } else {
                    None
                }
            },
            None => None,
        }
    }

    /// Resolves `host` and `port` at `now`: from a fresh entry if there is
    /// one, else by waiting on a lookup already in flight, else by starting
    /// one.
    pub fn resolve(&mut self, host: &str, port: u16, now: u64, lookup_in_flight: bool) -> (r:
        ResolveStep<A>)
        requires
            old(self).wf(),
        ensures
            final(self).wf(),
            final(self).ttl_spec() == old(self).ttl_spec(),
            final(self)@ == fresh_spec(old(self)@, (host@, port), now).1,
            match fresh_spec(old(self)@, (host@, port), now).0 {
                Some(a) => r == ResolveStep::Cached(a),
                None => r == if lookup_in_flight {
                    ResolveStep::<A>::AwaitInflight
                } else {
                    ResolveStep::<A>::StartLookup
                },
            },
    {
        match self.get_fresh(host, port, now) {
            Some(a) => ResolveStep::Cached(a),
            None => if lookup_in_flight {
                ResolveStep::AwaitInflight
            } else {
                ResolveStep::StartLookup
            },
        }
    }

    /// Records how a lookup of `host` and `port` that ended at `now` went,
    /// and returns what its waiters are told.
    pub fn finish_lookup(&mut self, host: &str, port: u16, now: u64, outcome: LookupOutcome<A>) -> (r:
        Result<Vec<A>, String>)
        requires
            old(self).wf(),
            now + old(self).ttl_spec() <= u64::MAX,
            now + DNS_FAILURE_STALE_BACKOFF_NS <= u64::MAX,
        ensures
            final(self).wf(),
            final(self).ttl_spec() == old(self).ttl_spec(),
            match r {
                Ok(v) => lookup_result(outcome) == Ok::<Seq<A>, Seq<char>>(v@),
                Err(m) => lookup_result(outcome) == Err::<Seq<A>, Seq<char>>(m@),
            },
            final(self)@ == after_lookup(
                old(self)@,
                (host@, port),
                now,
                old(self).ttl_spec(),
                lookup_result(outcome),
            ),
    {
        let ghost s = self@;
        let ghost k = (host@, port);
        let ghost res = lookup_result(outcome);
        let result: Result<Vec<A>, String> = match outcome {
            LookupOutcome::Resolved(v) => if v.len() == 0 {
                Err("lookup returned empty address list".to_owned())
            } else {
                Ok(v)
            },
            LookupOutcome::Failed(m) => Err(m),
            LookupOutcome::TimedOut => Err("DNS resolution timed out".to_owned()),
        };
        proof {
            lemma_lookup_unique(s, k);
        }
        let pos = self.position(host, port);
        match &result {
            Ok(v) => {
                let entry = DnsEntry::new(copy_vec(v), now + self.ttl);
                let ghost e = (v@, (now + self.ttl) as u64, 0nat);
                proof {
                    lemma_put(s, k, e);
                }
                match pos {
                    Some(i) => {
                        assert(s[i as int].0 == k);
                        assert(has_key(s, k));
                        self.entries.set(i, (host.to_owned(), port, entry));
                        assert(self@ =~= set_value(s, k, e)) by {
                            assert forall|j: int| 0 <= j < s.len() implies #[trigger] self@[j]
                                == (if s[j].0 == k {
                                (k, e)
                            } else {
                                s[j]
                            }) by {
                                if j != i {
                                    assert(s[j].0 != s[i as int].0);
                                }
                            }
                        }
                    },
                    None => {
                        self.entries.push((host.to_owned(), port, entry));
                        assert(self@ =~= s.push((k, e)));
                    },
                }
            },
            Err(_) => {
                match pos {
                    Some(i) => {
                        assert(s[i as int].0 == k);
                        assert(has_key(s, k));
                        let (h, p, mut entry) = self.entries.remove(i);
                        let ghost old_e = entry@;
                        entry.expires_at = now + DNS_FAILURE_STALE_BACKOFF_NS;
                        self.entries.insert(i, (h, p, entry));
                        let ghost e = (
                            old_e.0,
                            (now + DNS_FAILURE_STALE_BACKOFF_NS) as u64,
                            old_e.2,
                        );
                        proof {
                            lemma_put(s, k, e);
                        }
                        assert(self@ =~= set_value(s, k, e)) by {
                            assert forall|j: int| 0 <= j < s.len() implies #[trigger] self@[j]
                                == (if s[j].0 == k {
                                (k, e)
                            } else {
                                s[j]
                            }) by {
                                if j != i {
                                    assert(s[j].0 != s[i as int].0);
                                }
                            }
                        }
                    },
                    None => {},
                }
            },
        }
        result
    }

    /// What a request gets that waited on a lookup of `host` and `port`
    /// started by another request: a cached address first, else what the
    /// lookup reported.
    pub fn finish_wait(&mut self, host: &str, port: u16, outcome: InflightOutcome<A>) -> (r: Result<
        A,
        String,
    >)
        requires
            old(self).wf(),
        ensures
            final(self).wf(),
            final(self).ttl_spec() == old(self).ttl_spec(),
            final(self)@ == stale_spec(old(self)@, (host@, port)).1,
            match r {
                Ok(a) => inflight_result(outcome, stale_spec(old(self)@, (host@, port)).0, host@, port)
                    == Ok::<A, Seq<char>>(a),
                Err(m) => inflight_result(outcome, stale_spec(old(self)@, (host@, port)).0, host@, port)
                    == Err::<A, Seq<char>>(m@),
            },
    {
        if let Some(a) = self.get_stale(host, port) {
            return Ok(a);
        }
        let mut out: Vec<char> = Vec::new();
        match outcome {
            InflightOutcome::Reported(Ok(v)) => {
                if v.len() > 0 {
                    return Ok(v[0]);
                }
                push_str_chars(&mut out, "no resolved IP for ");
                push_host_port(&mut out, host, port);
            },
            InflightOutcome::Reported(Err(m)) => {
                push_str_chars(&mut out, "DNS lookup failed: ");
                push_str_chars(&mut out, m.as_str());
            },
            InflightOutcome::ChannelFailed(m) => {
                push_str_chars(&mut out, "DNS lookup channel failed for ");
                push_host_port(&mut out, host, port);
                push_str_chars(&mut out, ": ");
                push_str_chars(&mut out, m.as_str());
            },
            InflightOutcome::TimedOut => {
                push_str_chars(&mut out, "DNS lookup did not complete for ");
                push_host_port(&mut out, host, port);
            },
        }
        Err(string_from_chars(out.as_slice()))
    }
}

fn copy_vec<A: Copy>(v: &Vec<A>) -> (r: Vec<A>)
    ensures
        r@ == v@,
{
    let mut r: Vec<A> = Vec::new();
    let mut i: usize = 0;
    while i < v.len()
        invariant
            i <= v@.len(),
            r@ == v@.subrange(0, i as int),
        decreases v@.len() - i,
    {
        r.push(v[i]);
        i = i + 1;
    }
    assert(v@.subrange(0, v@.len() as int) =~= v@);
    r
}

fn push_host_port(out: &mut Vec<char>, host: &str, port: u16)
    ensures
        final(out)@ == old(out)@ + host_port(host@, port),
{
    push_str_chars(out, host);
    push_str_chars(out, ":");
    push_decimal(out, port as u64);
    proof {
        reveal_strlit(":");
    }
}

} // verus!
