//! The server's health facts: whether the control plane is fresh, whether
//! the server is ready for new work, and whether security-sensitive work
//! (logins) may be admitted. Times are nanoseconds on the caller's
//! monotonic clock.

use vstd::prelude::*;
use crate::listener_table::{
    entries_view, in_scope, opt_ports, ports_unique, lemma_entries_at, lemma_entries_set,
    lemma_entries_push, lemma_entries_remove, ListenerState, ListenerTable, TableV,
};
use crate::model::seq_view;
use crate::headers::names_of;
use crate::text::{push_str_chars, string_from_chars};

verus! {

/// One minute, in nanoseconds: control older than this is degraded.
pub const CONTROL_DEGRADED_AFTER_NS: u64 = 60_000_000_000;

/// Two minutes: control older than this no longer admits logins.
pub const CONTROL_SECURITY_STALE_AFTER_NS: u64 = 120_000_000_000;

/// Five minutes: control older than this is stale.
pub const CONTROL_STALE_AFTER_NS: u64 = 300_000_000_000;

/// How recently the control plane confirmed the configuration.
#[derive(Debug, Clone, Copy, PartialEq, Eq, Structural)]
pub enum ControlFreshness {
    Fresh,
    Degraded,
    Stale,
}

/// The state of one configured listener.
#[derive(Debug, Clone, PartialEq, Eq)]
pub struct ListenerHealth {
    pub desired_generation: u64,
    pub active_generation: Option<u64>,
    pub error: Option<String>,
}

/// A listener's state by its contents.
pub struct ListenerHealthV {
    pub desired_generation: u64,
    pub active_generation: Option<u64>,
    pub error: Option<Seq<char>>,
}

impl View for ListenerHealth {
    type V = ListenerHealthV;

    open spec fn view(&self) -> ListenerHealthV {
        ListenerHealthV {
            desired_generation: self.desired_generation,
            active_generation: self.active_generation,
            error: match self.error {
                Some(e) => Some(e@),
                None => None,
            },
        }
    }
}

/// The health facts of a server.
pub struct HealthV {
    pub control_plane_required: bool,
    pub quic_bound: bool,
    pub config_valid: bool,
    pub config_applying: bool,
    pub security_fence_held: bool,
    pub listeners: Map<u16, ListenerHealthV>,
    pub last_successfully_applied: Option<u64>,
    pub last_control_confirmed: Option<u64>,
    pub failed_component: Option<Seq<char>>,
    pub required_components: Set<Seq<char>>,
    pub running_components: Set<Seq<char>>,
    pub degraded_after: u64,
    pub security_stale_after: u64,
    pub stale_after: u64,
}

/// Time since `t` at `now`, zero when `now` is earlier.
pub open spec fn elapsed(now: u64, t: u64) -> u64 {
    if now >= t {
        (now - t) as u64
    } else {
        0
    }
}

/// Freshness at `now`: always fresh without a control plane; stale before
/// any confirmation; then by the age of the last confirmation.
pub open spec fn freshness_spec(h: HealthV, now: u64) -> ControlFreshness {
    if !h.control_plane_required {
        ControlFreshness::Fresh
    } else {
        match h.last_control_confirmed {
            None => ControlFreshness::Stale,
            Some(t) => if elapsed(now, t) >= h.stale_after {
                ControlFreshness::Stale
            } else if elapsed(now, t) >= h.degraded_after {
                ControlFreshness::Degraded
            } else {
                ControlFreshness::Fresh
            },
        }
    }
}

/// A listener is up: no error, and its desired generation active.
pub open spec fn listener_up(l: ListenerHealthV) -> bool {
    l.error is None && l.active_generation == Some(l.desired_generation)
}

/// Ready for new work at `now`: QUIC bound, configuration valid and not
/// being applied, control not stale, no component failed, every required
/// component running, every listener up.
pub open spec fn ready_spec(h: HealthV, now: u64) -> bool {
    &&& h.quic_bound
    &&& h.config_valid
    &&& !h.config_applying
    &&& freshness_spec(h, now) != ControlFreshness::Stale
    &&& h.failed_component is None
    &&& h.required_components.subset_of(h.running_components)
    &&& forall|p: u16| #[trigger] h.listeners.contains_key(p) ==> listener_up(h.listeners[p])
}

/// Security-sensitive work (logins) is admitted at `now`: never while a
/// configuration is being applied; otherwise with a valid configuration
/// and, when a control plane is required, a confirmation younger than the
/// security threshold.
pub open spec fn admits_security_spec(h: HealthV, now: u64) -> bool {
    if h.config_applying {
        false
    } else if !h.control_plane_required {
        h.config_valid
    } else {
        h.config_valid && match h.last_control_confirmed {
            Some(t) => elapsed(now, t) < h.security_stale_after,
            None => false,
        }
    }
}

/// The facts `(port, health)` as a map, a later fact for a port replacing
/// an earlier one.
pub open spec fn facts_map(facts: Seq<(u16, ListenerHealth)>) -> Map<u16, ListenerHealthV>
    decreases facts.len(),
{
    if facts.len() == 0 {
        Map::empty()
    } else {
        facts_map(facts.drop_last()).insert(facts.last().0, facts.last().1@)
    }
}

/// The listeners after new facts: all replaced, or only the `affected`
/// ports dropped before the facts are added.
pub open spec fn replaced_listeners(
    old: Map<u16, ListenerHealthV>,
    facts: Seq<(u16, ListenerHealth)>,
    affected: Option<Seq<u16>>,
) -> Map<u16, ListenerHealthV> {
    match affected {
        None => facts_map(facts),
        Some(a) => old.remove_keys(a.to_set()).union_prefer_right(facts_map(facts)),
    }
}

/// The server's health facts.
pub struct ServerHealthFacts {
    control_plane_required: bool,
    quic_bound: bool,
    config_valid: bool,
    config_applying: bool,
    security_fence_held: bool,
    ports: Vec<u16>,
    listeners: Vec<ListenerHealth>,
    last_successfully_applied: Option<u64>,
    last_control_confirmed: Option<u64>,
    failed_component: Option<String>,
    required_components: Vec<String>,
    running_components: Vec<String>,
    degraded_after: u64,
    security_stale_after: u64,
    stale_after: u64,
}

impl View for ServerHealthFacts {
    type V = HealthV;

    closed spec fn view(&self) -> HealthV {
        HealthV {
            control_plane_required: self.control_plane_required,
            quic_bound: self.quic_bound,
            config_valid: self.config_valid,
            config_applying: self.config_applying,
            security_fence_held: self.security_fence_held,
            listeners: entries_view(self.ports@, seq_view(self.listeners@)),
            last_successfully_applied: self.last_successfully_applied,
            last_control_confirmed: self.last_control_confirmed,
            failed_component: match self.failed_component {
                Some(f) => Some(f@),
                None => None,
            },
            required_components: names_of(self.required_components@),
            running_components: names_of(self.running_components@),
            degraded_after: self.degraded_after,
            security_stale_after: self.security_stale_after,
            stale_after: self.stale_after,
        }
    }
}

fn copy_health(l: &ListenerHealth) -> (r: ListenerHealth)
    ensures
        r@ == l@,
{
    ListenerHealth {
        desired_generation: l.desired_generation,
        active_generation: l.active_generation,
        error: match &l.error {
            Some(e) => Some(e.clone()),
            None => None,
        },
    }
}

impl ServerHealthFacts {
    /// The internal invariant: one listener entry per port.
    pub closed spec fn wf(&self) -> bool {
        &&& self.ports@.len() == self.listeners@.len()
        &&& ports_unique(self.ports@)
    }

    /// Facts with the default thresholds.
    pub fn new(control_plane_required: bool) -> (r: Self)
        ensures
            r.wf(),
            r@.control_plane_required == control_plane_required,
            !r@.quic_bound,
            r@.config_valid == !control_plane_required,
            !r@.config_applying,
            !r@.security_fence_held,
            r@.listeners == Map::<u16, ListenerHealthV>::empty(),
            r@.last_successfully_applied is None,
            r@.last_control_confirmed is None,
            r@.failed_component is None,
            r@.required_components == Set::<Seq<char>>::empty(),
            r@.running_components == Set::<Seq<char>>::empty(),
            r@.degraded_after == CONTROL_DEGRADED_AFTER_NS,
            r@.security_stale_after == CONTROL_SECURITY_STALE_AFTER_NS,
            r@.stale_after == CONTROL_STALE_AFTER_NS,
    {
        Self::with_thresholds(
            control_plane_required,
            CONTROL_DEGRADED_AFTER_NS,
            CONTROL_SECURITY_STALE_AFTER_NS,
            CONTROL_STALE_AFTER_NS,
        )
    }

    /// Facts with the given thresholds (nanoseconds).
    pub fn with_thresholds(
        control_plane_required: bool,
        degraded_after: u64,
        security_stale_after: u64,
        stale_after: u64,
    ) -> (r: Self)
        ensures
            r.wf(),
            r@.control_plane_required == control_plane_required,
            !r@.quic_bound,
            r@.config_valid == !control_plane_required,
            !r@.config_applying,
            !r@.security_fence_held,
            r@.listeners == Map::<u16, ListenerHealthV>::empty(),
            r@.last_successfully_applied is None,
            r@.last_control_confirmed is None,
            r@.failed_component is None,
            r@.required_components == Set::<Seq<char>>::empty(),
            r@.running_components == Set::<Seq<char>>::empty(),
            r@.degraded_after == degraded_after,
            r@.security_stale_after == security_stale_after,
            r@.stale_after == stale_after,
    {
        let r = ServerHealthFacts {
            control_plane_required,
            quic_bound: false,
            config_valid: !control_plane_required,
            config_applying: false,
            security_fence_held: false,
            ports: Vec::new(),
            listeners: Vec::new(),
            last_successfully_applied: None,
            last_control_confirmed: None,
            failed_component: None,
            required_components: Vec::new(),
            running_components: Vec::new(),
            degraded_after,
            security_stale_after,
            stale_after,
        };
        assert(r@.listeners =~= Map::<u16, ListenerHealthV>::empty());
        assert(r@.required_components =~= Set::<Seq<char>>::empty());
        assert(r@.running_components =~= Set::<Seq<char>>::empty());
        r
    }

    /// Records whether the QUIC endpoint is bound.
    pub fn mark_quic_bound(&mut self, bound: bool)
        ensures
            final(self).wf() == old(self).wf(),
            final(self)@ == (HealthV { quic_bound: bound, ..old(self)@ }),
    {
        self.quic_bound = bound;
    }

    /// A configuration starts being applied.
    pub fn begin_config_apply(&mut self)
        ensures
            final(self).wf() == old(self).wf(),
            final(self)@ == (HealthV { config_applying: true, ..old(self)@ }),
    {
        self.config_applying = true;
    }

    /// A configuration was applied at `now`: it is valid and confirmed, and
    /// the apply fence is lifted.
    pub fn finish_config_apply(&mut self, now: u64)
        ensures
            final(self).wf() == old(self).wf(),
            final(self)@ == (HealthV {
                last_successfully_applied: Some(now),
                last_control_confirmed: Some(now),
                config_valid: true,
                security_fence_held: false,
                config_applying: false,
                ..old(self)@
            }),
    {
        self.last_successfully_applied = Some(now);
        self.last_control_confirmed = Some(now);
        self.config_valid = true;
        self.security_fence_held = false;
        self.config_applying = false;
    }

    /// A configuration applied `age` before `now` was restored: as for a
    /// fresh apply, with the times set back by `age` (none when that would
    /// precede the clock's origin).
    pub fn restore_config_applied(&mut self, now: u64, age: u64)
        ensures
            final(self).wf() == old(self).wf(),
            final(self)@ == (HealthV {
                last_successfully_applied: if now >= age {
                    Some((now - age) as u64)
                } else {
                    None
                },
                last_control_confirmed: if now >= age {
                    Some((now - age) as u64)
                } else {
                    None
                },
                config_valid: true,
                security_fence_held: false,
                config_applying: false,
                ..old(self)@
            }),
    {
        let restored = now.checked_sub(age);
        self.last_successfully_applied = restored;
        self.last_control_confirmed = restored;
        self.config_valid = true;
        self.security_fence_held = false;
        self.config_applying = false;
    }

    /// Keeps the apply fence up until a configuration is applied, even if
    /// this apply fails.
    pub fn hold_config_apply_fence(&mut self)
        ensures
            final(self).wf() == old(self).wf(),
            final(self)@ == (HealthV {
                security_fence_held: true,
                config_applying: true,
                ..old(self)@
            }),
    {
        self.security_fence_held = true;
        self.config_applying = true;
    }

    /// An apply failed: the apply fence is lifted unless it is held.
    pub fn fail_config_apply(&mut self)
        ensures
            final(self).wf() == old(self).wf(),
            final(self)@ == (if old(self)@.security_fence_held {
                old(self)@
            } else {
                HealthV { config_applying: false, ..old(self)@ }
            }),
    {
        if !self.security_fence_held {
            self.config_applying = false;
        }
    }

    /// The control plane confirmed the configuration at `now`.
    pub fn confirm_control_freshness(&mut self, now: u64)
        ensures
            final(self).wf() == old(self).wf(),
            final(self)@ == (HealthV { last_control_confirmed: Some(now), ..old(self)@ }),
    {
        self.last_control_confirmed = Some(now);
    }

    /// Freshness of the control plane at `now`.
    pub fn control_freshness(&self, now: u64) -> (r: ControlFreshness)
        ensures
            r == freshness_spec(self@, now),
    {
        if !self.control_plane_required {
            return ControlFreshness::Fresh;
        }
        let t = match self.last_control_confirmed {
            Some(t) => t,
            None => return ControlFreshness::Stale,
        };
        let age = if now >= t {
            now - t
        } else {
            0
        };
        if age >= self.stale_after {
            ControlFreshness::Stale
        } else if age >= self.degraded_after {
            ControlFreshness::Degraded
        } else {
            ControlFreshness::Fresh
        }
    }

    /// Whether security-sensitive work is admitted at `now`.
    pub fn admits_security_sensitive_work(&self, now: u64) -> (r: bool)
        ensures
            r == admits_security_spec(self@, now),
    {
        if self.config_applying {
            return false;
        }
        if !self.control_plane_required {
            return self.config_valid;
        }
        self.config_valid && match self.last_control_confirmed {
            Some(t) => {
                let age = if now >= t {
                    now - t
                } else {
                    0
                };
                age < self.security_stale_after
            },
            None => false,
        }
    }
}

fn contains_name(names: &Vec<String>, n: &str) -> (r: bool)
    ensures
        r == names_of(names@).contains(n@),
{
    let target = n.to_owned();
    let mut i: usize = 0;
    while i < names.len()
        invariant
            i <= names@.len(),
            target@ == n@,
            forall|j: int| 0 <= j < i ==> names@[j]@ != n@,
        decreases names@.len() - i,
    {
        if names[i] == target {
            assert(names@[i as int]@ == n@);
            return true;
        }
        i = i + 1;
    }
    false
}

/// `names` without `n`.
fn without_name(names: &Vec<String>, n: &str) -> (r: Vec<String>)
    ensures
        names_of(r@) == names_of(names@).remove(n@),
{
    let target = n.to_owned();
    let mut out: Vec<String> = Vec::new();
    let mut i: usize = 0;
    while i < names.len()
        invariant
            i <= names@.len(),
            target@ == n@,
            forall|x: int| 0 <= x < out@.len() ==> #[trigger] out@[x]@ != n@,
            forall|x: int| 0 <= x < out@.len() ==> names_of(names@).contains(#[trigger] out@[x]@),
            forall|y: int|
                0 <= y < i && #[trigger] names@[y]@ != n@ ==> names_of(out@).contains(names@[y]@),
        decreases names@.len() - i,
    {
        let ghost before = out@;
        if names[i] != target {
            let c = names[i].clone();
            out.push(c);
            proof {
                assert(out@[out@.len() - 1]@ == names@[i as int]@);
            }
        }
        proof {
            assert forall|y: int| 0 <= y < i + 1 && #[trigger] names@[y]@ != n@ implies names_of(
                out@,
            ).contains(names@[y]@) by {
                if y < i {
                    let x = choose|x: int| 0 <= x < before.len() && before[x]@ == names@[y]@;
                    assert(out@[x]@ == names@[y]@);
                } else {
                    assert(out@[out@.len() - 1]@ == names@[y]@);
                }
            }
            assert forall|x: int| 0 <= x < out@.len() implies names_of(names@).contains(
                #[trigger] out@[x]@,
            ) by {
                if x < before.len() {
                    assert(out@[x] == before[x]);
                } else {
                    assert(names@[i as int]@ == out@[x]@);
                }
            }
        }
        i = i + 1;
    }
    proof {
        assert forall|m: Seq<char>| names_of(out@).contains(m) <==> names_of(names@).remove(
            n@,
        ).contains(m) by {
            if names_of(out@).contains(m) {
                let x = choose|x: int| 0 <= x < out@.len() && out@[x]@ == m;
                assert(out@[x]@ != n@);
            }
            if names_of(names@).remove(n@).contains(m) {
                let y = choose|y: int| 0 <= y < names@.len() && names@[y]@ == m;
                assert(names@[y]@ != n@);
            }
        }
        assert(names_of(out@) =~= names_of(names@).remove(n@));
    }
    out
}

proof fn lemma_facts_map_push(facts: Seq<(u16, ListenerHealth)>, k: int)
    requires
        0 <= k < facts.len(),
    ensures
        facts_map(facts.take(k + 1)) == facts_map(facts.take(k)).insert(facts[k].0, facts[k].1@),
{
    assert(facts.take(k + 1).drop_last() =~= facts.take(k));
}

impl ServerHealthFacts {
    fn find_port(&self, port: u16) -> (r: Option<usize>)
        requires
            self.wf(),
        ensures
            match r {
                Some(i) => i < self.ports@.len() && self.ports@[i as int] == port
                    && self@.listeners.contains_key(port) && self@.listeners[port]
                    == self.listeners@[i as int]@,
                None => !self@.listeners.contains_key(port),
            },
    {
        let mut i: usize = 0;
        while i < self.ports.len()
            invariant
                self.wf(),
                i <= self.ports@.len(),
                forall|j: int| 0 <= j < i ==> self.ports@[j] != port,
            decreases self.ports@.len() - i,
        {
            if self.ports[i] == port {
                proof {
                    lemma_entries_at(self.ports@, seq_view(self.listeners@), i as int);
                }
                return Some(i);
            }
            i = i + 1;
        }
        None
    }

    fn put_listener(&mut self, port: u16, l: ListenerHealth)
        requires
            old(self).wf(),
        ensures
            final(self).wf(),
            final(self)@ == (HealthV {
                listeners: old(self)@.listeners.insert(port, l@),
                ..old(self)@
            }),
    {
        let ghost lv = l@;
        match self.find_port(port) {
            Some(i) => {
                proof {
                    lemma_entries_set(self.ports@, seq_view(self.listeners@), i as int, lv);
                }
                let ghost before = self.listeners@;
                self.listeners.set(i, l);
                assert(seq_view(self.listeners@) =~= seq_view(before).update(i as int, lv));
            },
            None => {
                proof {
                    lemma_entries_push(self.ports@, seq_view(self.listeners@), port, lv);
                }
                let ghost before = self.listeners@;
                self.ports.push(port);
                self.listeners.push(l);
                assert(seq_view(self.listeners@) =~= seq_view(before).push(lv));
            },
        }
        assert(self@.listeners =~= old(self)@.listeners.insert(port, lv));
    }

    fn drop_listener(&mut self, port: u16)
        requires
            old(self).wf(),
        ensures
            final(self).wf(),
            final(self)@ == (HealthV { listeners: old(self)@.listeners.remove(port), ..old(self)@ }),
    {
        match self.find_port(port) {
            Some(i) => {
                proof {
                    lemma_entries_remove(self.ports@, seq_view(self.listeners@), i as int);
                }
                let ghost before = self.listeners@;
                self.ports.remove(i);
                self.listeners.remove(i);
                assert(seq_view(self.listeners@) =~= seq_view(before).remove(i as int));
            },
            None => {},
        }
        assert(self@.listeners =~= old(self)@.listeners.remove(port));
    }

    /// Replaces the listener facts: all of them, or only those of the
    /// `affected` ports (dropped first, then the new facts added).
    pub fn replace_listener_facts(
        &mut self,
        facts: &Vec<(u16, ListenerHealth)>,
        affected: Option<&Vec<u16>>,
    )
        requires
            old(self).wf(),
        ensures
            final(self).wf(),
            final(self)@ == (HealthV {
                listeners: replaced_listeners(
                    old(self)@.listeners,
                    facts@,
                    match affected {
                        Some(a) => Some(a@),
                        None => None,
                    },
                ),
                ..old(self)@
            }),
    {
        let ghost h0 = self@;
        match affected {
            Some(a) => {
                let mut i: usize = 0;
                assert(a@.take(0).to_set() =~= Set::<u16>::empty());
                assert(h0.listeners.remove_keys(Set::<u16>::empty()) =~= h0.listeners);
                while i < a.len()
                    invariant
                        self.wf(),
                        i <= a@.len(),
                        self@ == (HealthV {
                            listeners: h0.listeners.remove_keys(a@.take(i as int).to_set()),
                            ..h0
                        }),
                    decreases a@.len() - i,
                {
                    let port = a[i];
                    self.drop_listener(port);
                    proof {
                        let t0 = a@.take(i as int);
                        let t1 = a@.take(i + 1);
                        assert(t1 =~= t0.push(port));
                        assert forall|x: u16| t1.contains(x) <==> t0.contains(x) || x == port by {
                            if t1.contains(x) {
                                let j = choose|j: int| 0 <= j < t1.len() && t1[j] == x;
                                if j < t0.len() {
                                    assert(t0[j] == x);
                                }
                            }
                            if t0.contains(x) {
                                let j = choose|j: int| 0 <= j < t0.len() && t0[j] == x;
                                assert(t1[j] == x);
                            }
                            if x == port {
                                assert(t1[i as int] == x);
                            }
                        }
                        assert(t1.to_set() =~= t0.to_set().insert(port));
                    }
                    assert(h0.listeners.remove_keys(a@.take(i + 1).to_set()) =~= h0.listeners.remove_keys(
                        a@.take(i as int).to_set(),
                    ).remove(port));
                    i = i + 1;
                }
                assert(a@.take(i as int) =~= a@);
            },
            None => {
                self.ports = Vec::new();
                self.listeners = Vec::new();
                assert(self@.listeners =~= Map::<u16, ListenerHealthV>::empty());
            },
        }
        let ghost base = self@.listeners;
        assert(facts@.take(0) =~= Seq::<(u16, ListenerHealth)>::empty());
        assert(base.union_prefer_right(facts_map(facts@.take(0))) =~= base);
        let mut k: usize = 0;
        while k < facts.len()
            invariant
                self.wf(),
                k <= facts@.len(),
                self@ == (HealthV {
                    listeners: base.union_prefer_right(facts_map(facts@.take(k as int))),
                    ..h0
                }),
            decreases facts@.len() - k,
        {
            let port = facts[k].0;
            let l = copy_health(&facts[k].1);
            self.put_listener(port, l);
            proof {
                lemma_facts_map_push(facts@, k as int);
                assert(base.union_prefer_right(facts_map(facts@.take(k + 1))) =~= base.union_prefer_right(
                    facts_map(facts@.take(k as int)),
                ).insert(port, l@));
            }
            k = k + 1;
        }
        assert(facts@.take(k as int) =~= facts@);
        proof {
            if affected is None {
                assert(base.union_prefer_right(facts_map(facts@)) =~= facts_map(facts@));
            }
        }
    }

    /// The workers of `generation` on `port` exited: when that generation
    /// was the active one, the listener is down with an error.
    pub fn listener_worker_exited(&mut self, port: u16, generation: u64)
        requires
            old(self).wf(),
        ensures
            final(self).wf(),
            final(self)@ == (if old(self)@.listeners.contains_key(port)
                && old(self)@.listeners[port].active_generation == Some(generation) {
                HealthV {
                    listeners: old(self)@.listeners.insert(
                        port,
                        ListenerHealthV {
                            active_generation: None,
                            error: Some("listener worker set exited unexpectedly"@),
                            ..old(self)@.listeners[port]
                        },
                    ),
                    ..old(self)@
                }
            } else {
                old(self)@
            }),
    {
        match self.find_port(port) {
            Some(i) => {
                if self.listeners[i].active_generation == Some(generation) {
                    let l = ListenerHealth {
                        desired_generation: self.listeners[i].desired_generation,
                        active_generation: None,
                        error: Some("listener worker set exited unexpectedly".to_owned()),
                    };
                    self.put_listener(port, l);
                }
            },
            None => {},
        }
    }

    /// The components that must run for the server to be ready.
    pub fn set_required_components(&mut self, components: &Vec<String>)
        ensures
            final(self).wf() == old(self).wf(),
            final(self)@ == (HealthV {
                required_components: names_of(components@),
                ..old(self)@
            }),
    {
        let mut out: Vec<String> = Vec::new();
        let mut i: usize = 0;
        while i < components.len()
            invariant
                i <= components@.len(),
                out@.len() == i,
                forall|j: int| 0 <= j < i ==> #[trigger] out@[j]@ == components@[j]@,
            decreases components@.len() - i,
        {
            out.push(components[i].clone());
            i = i + 1;
        }
        proof {
            assert forall|m: Seq<char>| names_of(out@).contains(m) <==> names_of(components@).contains(
                m,
            ) by {
                if names_of(out@).contains(m) {
                    let x = choose|x: int| 0 <= x < out@.len() && out@[x]@ == m;
                    assert(components@[x]@ == m);
                }
                if names_of(components@).contains(m) {
                    let x = choose|x: int| 0 <= x < components@.len() && components@[x]@ == m;
                    assert(out@[x]@ == m);
                }
            }
            assert(names_of(out@) =~= names_of(components@));
        }
        self.required_components = out;
    }

    /// `component` is running.
    pub fn component_running(&mut self, component: &str)
        ensures
            final(self).wf() == old(self).wf(),
            final(self)@ == (HealthV {
                running_components: old(self)@.running_components.insert(component@),
                ..old(self)@
            }),
    {
        if !contains_name(&self.running_components, component) {
            let c = component.to_owned();
            proof {
                crate::headers::lemma_names_push(self.running_components@, c);
            }
            self.running_components.push(c);
        } else {
            assert(self@.running_components =~= old(self)@.running_components.insert(component@));
        }
    }

    /// `component` stopped.
    pub fn component_stopped(&mut self, component: &str)
        ensures
            final(self).wf() == old(self).wf(),
            final(self)@ == (HealthV {
                running_components: old(self)@.running_components.remove(component@),
                ..old(self)@
            }),
    {
        self.running_components = without_name(&self.running_components, component);
    }

    /// `component` failed for `reason`: it no longer runs, and the failure
    /// reads `component: reason`.
    pub fn component_failed(&mut self, component: &str, reason: &str)
        ensures
            final(self).wf() == old(self).wf(),
            final(self)@ == (HealthV {
                running_components: old(self)@.running_components.remove(component@),
                failed_component: Some(component@ + ": "@ + reason@),
                ..old(self)@
            }),
    {
        self.running_components = without_name(&self.running_components, component);
        let mut out: Vec<char> = Vec::new();
        push_str_chars(&mut out, component);
        push_str_chars(&mut out, ": ");
        push_str_chars(&mut out, reason);
        self.failed_component = Some(string_from_chars(out.as_slice()));
    }

    /// Whether the server is ready for new work at `now`.
    pub fn is_ready(&self, now: u64) -> (r: bool)
        requires
            self.wf(),
        ensures
            r == ready_spec(self@, now),
    {
        if !self.quic_bound || !self.config_valid || self.config_applying {
            return false;
        }
        if self.control_freshness(now) == ControlFreshness::Stale {
            return false;
        }
        if self.failed_component.is_some() {
            return false;
        }
        let mut i: usize = 0;
        while i < self.required_components.len()
            invariant
                i <= self.required_components@.len(),
                forall|j: int|
                    0 <= j < i ==> names_of(self.running_components@).contains(
                        #[trigger] self.required_components@[j]@,
                    ),
            decreases self.required_components@.len() - i,
        {
            if !contains_name(&self.running_components, self.required_components[i].as_str()) {
                proof {
                    assert(names_of(self.required_components@).contains(
                        self.required_components@[i as int]@,
                    ));
                }
                return false;
            }
            i = i + 1;
        }
        proof {
            assert forall|m: Seq<char>| names_of(self.required_components@).contains(m) implies names_of(
                self.running_components@,
            ).contains(m) by {
                let x = choose|x: int|
                    0 <= x < self.required_components@.len() && self.required_components@[x]@ == m;
            }
        }
        let mut k: usize = 0;
        while k < self.ports.len()
            invariant
                self.wf(),
                k <= self.ports@.len(),
                forall|j: int|
                    0 <= j < k ==> listener_up(#[trigger] seq_view(self.listeners@)[j]),
            decreases self.ports@.len() - k,
        {
            let l = &self.listeners[k];
            let up = l.error.is_none() && l.active_generation == Some(l.desired_generation);
            if !up {
                proof {
                    lemma_entries_at(self.ports@, seq_view(self.listeners@), k as int);
                    assert(!listener_up(self@.listeners[self.ports@[k as int]]));
                }
                return false;
            }
            k = k + 1;
        }
        proof {
            assert forall|p: u16| #[trigger] self@.listeners.contains_key(p) implies listener_up(
                self@.listeners[p],
            ) by {
                let j = choose|j: int| 0 <= j < self.ports@.len() && self.ports@[j] == p;
                lemma_entries_at(self.ports@, seq_view(self.listeners@), j);
                assert(listener_up(seq_view(self.listeners@)[j]));
            }
        }
        true
    }

    /// Whether new work is admitted at `now`: exactly when ready.
    pub fn admits_new_work(&self, now: u64) -> (r: bool)
        requires
            self.wf(),
        ensures
            r == ready_spec(self@, now),
    {
        self.is_ready(now)
    }
}

/// The first recorded failure of `port`: the generation that failed and
/// the error.
pub open spec fn failure_of(failures: Seq<(u16, u64, String)>, port: u16) -> Option<(u64, Seq<char>)>
    decreases failures.len(),
{
    if failures.len() == 0 {
        None
    } else if failures[0].0 == port {
        Some((failures[0].1, failures[0].2@))
    } else {
        failure_of(failures.drop_first(), port)
    }
}

/// The health of the listener on `port`: the generation the table holds
/// (or else the one that failed, or else 0) is desired; it is active when
/// the table holds it active; a recorded failure is its error.
pub open spec fn port_health(t: TableV, failures: Seq<(u16, u64, String)>, port: u16) -> ListenerHealthV {
    let failed = failure_of(failures, port);
    ListenerHealthV {
        desired_generation: if t.entries.contains_key(port) {
            t.entries[port].generation
        } else {
            match failed {
                Some((g, _)) => g,
                None => 0,
            }
        },
        active_generation: if t.entries.contains_key(port) && t.entries[port].state
            == ListenerState::Active {
            Some(t.entries[port].generation)
        } else {
            None
        },
        error: match failed {
            Some((_, e)) => Some(e),
            None => None,
        },
    }
}

/// The health of the desired listeners in scope, by port.
pub open spec fn health_snapshot_spec(
    t: TableV,
    desired: Seq<u16>,
    affected: Option<Seq<u16>>,
    failures: Seq<(u16, u64, String)>,
) -> Map<u16, ListenerHealthV> {
    Map::new(
        |p: u16| desired.contains(p) && in_scope(affected, p),
        |p: u16| port_health(t, failures, p),
    )
}

fn find_failure(failures: &Vec<(u16, u64, String)>, port: u16) -> (r: Option<(u64, String)>)
    ensures
        match r {
            Some((g, e)) => failure_of(failures@, port) == Some((g, e@)),
            None => failure_of(failures@, port) is None,
        },
{
    let mut i: usize = 0;
    assert(failures@.skip(0) =~= failures@);
    while i < failures.len()
        invariant
            i <= failures@.len(),
            failure_of(failures@, port) == failure_of(failures@.skip(i as int), port),
        decreases failures@.len() - i,
    {
        let ghost rest = failures@.skip(i as int);
        assert(rest.drop_first() =~= failures@.skip(i + 1));
        if failures[i].0 == port {
            return Some((failures[i].1, failures[i].2.clone()));
        }
        i = i + 1;
    }
    assert(failures@.skip(i as int).len() == 0);
    None
}

/// The health facts of the `desired` listener ports (limited to the
/// `affected` ones when given), from the listener table and the recorded
/// start failures.
pub fn listener_health_snapshot(
    table: &ListenerTable,
    desired: &Vec<u16>,
    affected: Option<&Vec<u16>>,
    failures: &Vec<(u16, u64, String)>,
) -> (r: Vec<(u16, ListenerHealth)>)
    requires
        table.wf(),
    ensures
        facts_map(r@) == health_snapshot_spec(table@, desired@, opt_ports(affected), failures@),
{
    let ghost target = health_snapshot_spec(table@, desired@, opt_ports(affected), failures@);
    let mut out: Vec<(u16, ListenerHealth)> = Vec::new();
    let mut i: usize = 0;
    assert(facts_map(out@) =~= Map::<u16, ListenerHealthV>::empty());
    while i < desired.len()
        invariant
            table.wf(),
            i <= desired@.len(),
            target == health_snapshot_spec(table@, desired@, opt_ports(affected), failures@),
            facts_map(out@) == Map::new(
                |p: u16| desired@.take(i as int).contains(p) && in_scope(opt_ports(affected), p),
                |p: u16| port_health(table@, failures@, p),
            ),
        decreases desired@.len() - i,
    {
        let port = desired[i];
        let ghost before = out@;
        let in_range = match affected {
            None => true,
            Some(a) => {
                let mut k: usize = 0;
                let mut found = false;
                while k < a.len()
                    invariant
                        k <= a@.len(),
                        found == (exists|j: int| 0 <= j < k && a@[j] == port),
                    decreases a@.len() - k,
                {
                    if a[k] == port {
                        found = true;
                    }
                    k = k + 1;
                }
                found
            },
        };
        assert(in_range == in_scope(opt_ports(affected), port));
        if in_range {
            let entry = table.get(port);
            let failed = find_failure(failures, port);
            let desired_generation = match entry {
                Some(e) => e.generation,
                None => match &failed {
                    Some((g, _)) => *g,
                    None => 0,
                },
            };
            let active_generation = match entry {
                Some(e) => if e.state == ListenerState::Active {
                    Some(e.generation)
                } else {
                    None
                },
                None => None,
            };
            let error = match failed {
                Some((_, e)) => Some(e),
                None => None,
            };
            let h = ListenerHealth { desired_generation, active_generation, error };
            assert(h@ == port_health(table@, failures@, port));
            out.push((port, h));
            assert(out@.drop_last() =~= before);
        }
        proof {
            let now_map = Map::new(
                |p: u16| desired@.take(i + 1).contains(p) && in_scope(opt_ports(affected), p),
                |p: u16| port_health(table@, failures@, p),
            );
            let t0 = desired@.take(i as int);
            let t1 = desired@.take(i + 1);
            assert forall|p: u16| #[trigger] t1.contains(p) <==> (t0.contains(p) || p == port) by {
                if t1.contains(p) {
                    let j = choose|j: int| 0 <= j < t1.len() && t1[j] == p;
                    if j < i {
                        assert(t0[j] == p);
                    }
                }
                if t0.contains(p) {
                    let j = choose|j: int| 0 <= j < t0.len() && t0[j] == p;
                    assert(t1[j] == p);
                }
                if p == port {
                    assert(t1[i as int] == p);
                }
            }
            assert(facts_map(out@) =~= now_map);
        }
        i = i + 1;
    }
    proof {
        assert(desired@.take(i as int) =~= desired@);
        assert(facts_map(out@) =~= target);
    }
    out
}

/// While a configuration is being applied no login is admitted and the
/// server is not ready.
pub proof fn law_apply_fences_work(h: HealthV, now: u64)
    requires
        h.config_applying,
    ensures
        !admits_security_spec(h, now),
        !ready_spec(h, now),
{
}

/// A held fence survives a failed apply: logins stay fenced until a
/// configuration is applied, after which they are admitted again (at once
/// when no control plane is required, or while the confirmation is fresh
/// enough).
pub proof fn law_held_fence_survives_failed_apply(h: HealthV, now: u64, t: u64)
    ensures
        ({
            let held = HealthV { security_fence_held: true, config_applying: true, ..h };
            let failed = if held.security_fence_held {
                held
            } else {
                HealthV { config_applying: false, ..held }
            };
            !admits_security_spec(failed, now)
        }),
        ({
            let applied = HealthV {
                last_successfully_applied: Some(t),
                last_control_confirmed: Some(t),
                config_valid: true,
                security_fence_held: false,
                config_applying: false,
                ..h
            };
            (!h.control_plane_required || elapsed(now, t) < h.security_stale_after)
                ==> admits_security_spec(applied, now)
        }),
{
}

/// Stale control is never ready for new work.
pub proof fn law_stale_control_is_not_ready(h: HealthV, now: u64)
    requires
        freshness_spec(h, now) == ControlFreshness::Stale,
    ensures
        !ready_spec(h, now),
{
}

/// A server is never ready for new work while its QUIC endpoint is unbound,
/// its configuration is invalid or being applied, a component has failed,
/// a required component is not running, or a listener is not up.
pub proof fn law_ready_needs_bound_quic_and_valid_config(h: HealthV, now: u64)
    ensures
        ready_spec(h, now) ==> h.quic_bound,
        ready_spec(h, now) ==> h.config_valid && !h.config_applying,
        ready_spec(h, now) ==> h.failed_component is None,
        ready_spec(h, now) ==> forall|c| #[trigger] h.required_components.contains(c)
            ==> h.running_components.contains(c),
        ready_spec(h, now) ==> forall|p: u16| #[trigger] h.listeners.contains_key(p) ==> listener_up(
            h.listeners[p],
        ),
{
}

/// When the security threshold comes first, control that is too old for
/// logins may still be fresh enough for other work, but control stale for
/// other work never admits logins.
pub proof fn law_security_fence_comes_first(h: HealthV, now: u64)
    requires
        h.control_plane_required,
        h.security_stale_after <= h.stale_after,
        freshness_spec(h, now) == ControlFreshness::Stale,
    ensures
        !admits_security_spec(h, now),
{
}

} // verus!
