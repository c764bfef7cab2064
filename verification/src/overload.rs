//! Admission control: a global budget and per-group budgets for resources
//! whose lifetime a caller owns, and the pending-stream limit of a tunnel.

use vstd::prelude::*;

verus! {

/// How many opened streams may wait to be accepted.
#[derive(Debug, Clone, Copy, PartialEq, Eq, Structural)]
pub struct OverloadLimits {
    pub max_pending_streams: usize,
}

/// The pending-stream limit: the requested one, or a quarter of the stream
/// capacity (at least one), kept between one and the stream capacity, which
/// itself is at least one.
pub open spec fn pending_limit(max_concurrent_streams: u32, max_pending_streams: Option<usize>) -> int {
    let streams: int = if max_concurrent_streams == 0 {
        1
    } else {
        max_concurrent_streams as int
    };
    let wanted: int = match max_pending_streams {
        Some(n) => n as int,
        None => if streams / 4 < 1 {
            1
        } else {
            streams / 4
        },
    };
    if wanted < 1 {
        1
    } else if wanted > streams {
        streams
    } else {
        wanted
    }
}

impl OverloadLimits {
    /// Resolves the pending-stream limit for a stream capacity.
    pub fn resolve(max_concurrent_streams: u32, max_pending_streams: Option<usize>) -> (r: Self)
        ensures
            r.max_pending_streams == pending_limit(max_concurrent_streams, max_pending_streams),
    {
        let streams: usize = if max_concurrent_streams == 0 {
            1
        } else {
            max_concurrent_streams as usize
        };
        let wanted: usize = match max_pending_streams {
            Some(n) => n,
            None => if streams / 4 < 1 {
                1
            } else {
                streams / 4
            },
        };
        let pending: usize = if wanted < 1 {
            1
        } else if wanted > streams {
            streams
        } else {
            wanted
        };
        OverloadLimits { max_pending_streams: pending }
    }
}

/// Admission limits for resources whose lifetime is owned by a caller.
///
/// `global` bounds all permits. `per_group` adds independent bounds for the
/// named groups; groups without an entry remain governed only by `global`.
/// When a group is named more than once, its first entry counts. A zero
/// limit is valid and rejects every attempt in that scope.
#[derive(Debug, Clone, Default, PartialEq, Eq)]
pub struct AdmissionLimits {
    pub global: Option<usize>,
    pub per_group: Vec<(String, usize)>,
}

/// The limit of each group named in `entries` (its first entry).
pub open spec fn group_limits(entries: Seq<(String, usize)>) -> Map<Seq<char>, usize>
    decreases entries.len(),
{
    if entries.len() == 0 {
        Map::empty()
    } else {
        let m = group_limits(entries.drop_last());
        if m.dom().contains(entries.last().0@) {
            m
        } else {
            m.insert(entries.last().0@, entries.last().1)
        }
    }
}

/// Whether some entry names group `g`.
pub open spec fn names_group(entries: Seq<(String, usize)>, g: Seq<char>) -> bool {
    exists|i: int| 0 <= i < entries.len() && (#[trigger] entries[i]).0@ == g
}

proof fn lemma_group_limits_dom(entries: Seq<(String, usize)>)
    ensures
        forall|g: Seq<char>| #[trigger]
            group_limits(entries).dom().contains(g) <==> names_group(entries, g),
    decreases entries.len(),
{
    if entries.len() > 0 {
        let s = entries.drop_last();
        lemma_group_limits_dom(s);
        let m = group_limits(s);
        let last = entries.last();
        assert(group_limits(entries) == (if m.dom().contains(last.0@) {
            m
        } else {
            m.insert(last.0@, last.1)
        }));
        assert forall|g: Seq<char>| #[trigger]
            group_limits(entries).dom().contains(g) <==> names_group(entries, g) by {
            if g == last.0@ {
                assert(entries[entries.len() - 1].0@ == g);
            }
            if names_group(entries, g) {
                let i = choose|i: int| 0 <= i < entries.len() && (#[trigger] entries[i]).0@ == g;
                if i < s.len() {
                    assert(s[i].0@ == g);
                }
            }
            if names_group(s, g) {
                let i = choose|i: int| 0 <= i < s.len() && (#[trigger] s[i]).0@ == g;
                assert(entries[i].0@ == g);
            }
            assert(entries[entries.len() - 1].0@ == entries.last().0@);
        }
    }
}

proof fn lemma_group_limits_update(entries: Seq<(String, usize)>, i: int, e: (String, usize))
    requires
        0 <= i < entries.len(),
        entries[i].0@ == e.0@,
        forall|j: int| 0 <= j < i ==> (#[trigger] entries[j]).0@ != e.0@,
    ensures
        group_limits(entries.update(i, e)) == group_limits(entries).insert(e.0@, e.1),
    decreases entries.len(),
{
    let u = entries.update(i, e);
    let s = entries.drop_last();
    lemma_group_limits_dom(s);
    if i == entries.len() - 1 {
        assert(u.drop_last() =~= s);
        assert(!names_group(s, e.0@));
        let m = group_limits(s);
        assert(u.last() == e);
        assert(group_limits(u) == m.insert(e.0@, e.1));
        assert(group_limits(entries) == m.insert(e.0@, entries.last().1));
        assert(group_limits(u) =~= group_limits(entries).insert(e.0@, e.1));
    } else {
        assert(u.drop_last() =~= s.update(i, e));
        lemma_group_limits_update(s, i, e);
        assert(names_group(s, e.0@)) by {
            assert(s[i].0@ == e.0@);
        }
        let m = group_limits(s);
        let mu = group_limits(s.update(i, e));
        let last = entries.last();
        assert(u.last() == last);
        assert(mu.dom() =~= m.dom());
        assert(group_limits(u) == (if mu.dom().contains(last.0@) {
            mu
        } else {
            mu.insert(last.0@, last.1)
        }));
        assert(group_limits(entries) == (if m.dom().contains(last.0@) {
            m
        } else {
            m.insert(last.0@, last.1)
        }));
        assert(group_limits(u) =~= group_limits(entries).insert(e.0@, e.1));
    }
}

impl AdmissionLimits {
    /// Limits with a global bound and no group bounds.
    pub fn new(global: Option<usize>) -> (r: Self)
        ensures
            r.global == global,
            r.per_group@.len() == 0,
    {
        AdmissionLimits { global, per_group: Vec::new() }
    }

    /// The limits with `group` bounded by `limit`, replacing any bound it had.
    pub fn with_group_limit(self, group: &str, limit: usize) -> (r: Self)
        ensures
            r.global == self.global,
            group_limits(r.per_group@) == group_limits(self.per_group@).insert(group@, limit),
    {
        let mut limits = self;
        let name = group.to_owned();
        let ghost before = limits.per_group@;
        let mut i: usize = 0;
        while i < limits.per_group.len()
            invariant
                i <= limits.per_group@.len(),
                limits.per_group@ == before,
                limits.global == self.global,
                before == self.per_group@,
                name@ == group@,
                forall|j: int| 0 <= j < i ==> (#[trigger] before[j]).0@ != group@,
            decreases limits.per_group@.len() - i,
        {
            if limits.per_group[i].0 == name {
                proof {
                    lemma_group_limits_update(before, i as int, (name, limit));
                }
                limits.per_group.set(i, (name, limit));
                return limits;
            }
            i = i + 1;
        }
        proof {
            lemma_group_limits_dom(before);
            assert(!names_group(before, group@));
            let e = (name, limit);
            assert(before.push(e).drop_last() =~= before);
        }
        limits.per_group.push((name, limit));
        limits
    }
}

/// Why admission limits are refused.
#[derive(Debug, Clone, Copy, PartialEq, Eq, Structural)]
pub enum AdmissionConfigError {
    EmptyGroupId,
}

impl AdmissionConfigError {
    /// The message the error carries.
    pub fn message(&self) -> (r: &'static str)
        ensures
            r@ == "admission group id must not be empty"@,
    {
        match self {
            AdmissionConfigError::EmptyGroupId => "admission group id must not be empty",
        }
    }
}

/// Which budget refused an attempt.
#[derive(Debug, Clone, Copy, PartialEq, Eq, Structural)]
pub enum AdmissionRejectScope {
    Global,
    Group,
}

/// An attempt that was refused, and by which budget.
#[derive(Debug, Clone, Copy, PartialEq, Eq, Structural)]
pub struct AdmissionRejected {
    pub scope: AdmissionRejectScope,
}

/// Counts of one budget.
#[derive(Debug, Clone, Copy, Default, PartialEq, Eq, Structural)]
pub struct AdmissionStats {
    pub admitted: u64,
    pub rejected: u64,
    pub active: u64,
}

/// The state of one budget: its limit, the permits it holds, and how many
/// attempts it admitted and rejected (both counted modulo 2^64).
#[derive(Debug, Clone, Copy, PartialEq, Eq, Structural)]
pub struct AdmissionCounters {
    pub limit: Option<usize>,
    pub active: usize,
    pub admitted: u64,
    pub rejected: u64,
}

/// A budget with no permits out and nothing counted.
pub open spec fn fresh_counters(limit: Option<usize>) -> AdmissionCounters {
    AdmissionCounters { limit, active: 0, admitted: 0, rejected: 0 }
}

/// Whether the budget can hold one more permit.
pub open spec fn can_reserve(c: AdmissionCounters) -> bool {
    c.active < usize::MAX && match c.limit {
        Some(l) => c.active < l,
        None => true,
    }
}

/// The budget after admitting one more permit.
pub open spec fn admitted_one(c: AdmissionCounters) -> AdmissionCounters {
    AdmissionCounters { active: (c.active + 1) as usize, admitted: c.admitted.wrapping_add(1), ..c }
}

/// The budget after refusing an attempt.
pub open spec fn rejected_one(c: AdmissionCounters) -> AdmissionCounters {
    AdmissionCounters { rejected: c.rejected.wrapping_add(1), ..c }
}

/// The budget after a permit is given back.
pub open spec fn released_one(c: AdmissionCounters) -> AdmissionCounters {
    if c.active > 0 {
        AdmissionCounters { active: (c.active - 1) as usize, ..c }
    } else {
        c
    }
}

/// A budget never holds more permits than its limit.
pub open spec fn within_limit(c: AdmissionCounters) -> bool {
    match c.limit {
        Some(l) => c.active <= l,
        None => true,
    }
}

/// The counts a budget reports.
pub open spec fn stats_of(c: AdmissionCounters) -> AdmissionStats {
    AdmissionStats { admitted: c.admitted, rejected: c.rejected, active: c.active as u64 }
}

/// The state of an admission controller: the global budget and the budget of
/// each configured group.
pub struct ControllerV {
    pub global: AdmissionCounters,
    pub groups: Map<Seq<char>, AdmissionCounters>,
}

/// Every budget is within its limit, and every group has a limit.
pub open spec fn controller_ok(v: ControllerV) -> bool {
    &&& within_limit(v.global)
    &&& forall|g: Seq<char>| #[trigger]
        v.groups.dom().contains(g) ==> within_limit(v.groups[g]) && v.groups[g].limit is Some
}

/// The controller `AdmissionController::new` builds from `limits`.
pub open spec fn initial_controller(limits: AdmissionLimits) -> ControllerV {
    ControllerV {
        global: fresh_counters(limits.global),
        groups: Map::new(
            |g: Seq<char>| group_limits(limits.per_group@).dom().contains(g),
            |g: Seq<char>| fresh_counters(Some(group_limits(limits.per_group@)[g])),
        ),
    }
}

/// Some group of `limits` has an empty name.
pub open spec fn has_empty_group(limits: AdmissionLimits) -> bool {
    exists|i: int| 0 <= i < limits.per_group@.len() && (#[trigger] limits.per_group@[i]).0@.len() == 0
}

/// The configured group `group` names, if any.
pub open spec fn configured_group(v: ControllerV, group: Option<Seq<char>>) -> Option<Seq<char>> {
    match group {
        Some(g) => if v.groups.dom().contains(g) {
            Some(g)
        } else {
            None
        },
        None => None,
    }
}

/// The effect of an attempt to acquire a permit, for `group` or for the
/// global budget alone, and its outcome: the configured group the permit
/// holds, or the budget that refused it. The global budget is tried first;
/// when the group's budget refuses, both budgets count the rejection.
pub open spec fn acquire_spec(v: ControllerV, group: Option<Seq<char>>) -> (
    ControllerV,
    Result<Option<Seq<char>>, AdmissionRejectScope>,
) {
    let slot = configured_group(v, group);
    if !can_reserve(v.global) {
        (ControllerV { global: rejected_one(v.global), ..v }, Err(AdmissionRejectScope::Global))
    } else {
        match slot {
            Some(g) => if !can_reserve(v.groups[g]) {
                (
                    ControllerV {
                        global: rejected_one(v.global),
                        groups: v.groups.insert(g, rejected_one(v.groups[g])),
                    },
                    Err(AdmissionRejectScope::Group),
                )
            } else {
                (
                    ControllerV {
                        global: admitted_one(v.global),
                        groups: v.groups.insert(g, admitted_one(v.groups[g])),
                    },
                    Ok(Some(g)),
                )
            },
            None => (ControllerV { global: admitted_one(v.global), ..v }, Ok(None)),
        }
    }
}

/// The effect of giving back a permit that holds the configured group
/// `group`, if any.
pub open spec fn release_spec(v: ControllerV, group: Option<Seq<char>>) -> ControllerV {
    ControllerV {
        global: released_one(v.global),
        groups: match group {
            Some(g) => if v.groups.dom().contains(g) {
                v.groups.insert(g, released_one(v.groups[g]))
            } else {
                v.groups
            },
            None => v.groups,
        },
    }
}

/// A shared admission controller without a waiter queue: an attempt either
/// gets a permit at once or is rejected. Per-group limits isolate groups;
/// they do not schedule them fairly.
pub struct AdmissionController {
    global: AdmissionCounters,
    names: Vec<String>,
    counters: Vec<AdmissionCounters>,
}

/// The budget of each named group.
pub open spec fn groups_view(names: Seq<String>, counters: Seq<AdmissionCounters>) -> Map<
    Seq<char>,
    AdmissionCounters,
> {
    Map::new(
        |g: Seq<char>| exists|i: int| 0 <= i < names.len() && (#[trigger] names[i])@ == g,
        |g: Seq<char>| counters[choose|i: int| 0 <= i < names.len() && (#[trigger] names[i])@ == g],
    )
}

pub open spec fn names_unique(names: Seq<String>) -> bool {
    forall|i: int, j: int| 0 <= i < j < names.len() ==> (#[trigger] names[i])@ != (#[trigger] names[j])@
}

proof fn lemma_groups_view_at(names: Seq<String>, counters: Seq<AdmissionCounters>, i: int)
    requires
        names_unique(names),
        0 <= i < names.len(),
    ensures
        groups_view(names, counters).dom().contains(names[i]@),
        groups_view(names, counters)[names[i]@] == counters[i],
{
    let g = names[i]@;
    assert(names[i]@ == g);
    let j = choose|j: int| 0 <= j < names.len() && (#[trigger] names[j])@ == g;
    if j < i {
        assert(names[j]@ != names[i]@);
    } else if j > i {
        assert(names[i]@ != names[j]@);
    }
}

proof fn lemma_groups_view_set(
    names: Seq<String>,
    counters: Seq<AdmissionCounters>,
    i: int,
    c: AdmissionCounters,
)
    requires
        names_unique(names),
        names.len() == counters.len(),
        0 <= i < names.len(),
    ensures
        groups_view(names, counters.update(i, c)) == groups_view(names, counters).insert(names[i]@, c),
{
    let a = groups_view(names, counters.update(i, c));
    let b = groups_view(names, counters).insert(names[i]@, c);
    lemma_groups_view_at(names, counters, i);
    assert forall|g: Seq<char>| #[trigger] a.dom().contains(g) implies a[g] == b[g] by {
        let j = choose|j: int| 0 <= j < names.len() && (#[trigger] names[j])@ == g;
        lemma_groups_view_at(names, counters.update(i, c), j);
        lemma_groups_view_at(names, counters, j);
        if j != i {
            if j < i {
                assert(names[j]@ != names[i]@);
            } else {
                assert(names[i]@ != names[j]@);
            }
        }
    }
    assert(a =~= b);
}

proof fn lemma_groups_view_push(
    names: Seq<String>,
    counters: Seq<AdmissionCounters>,
    n: String,
    c: AdmissionCounters,
)
    requires
        names_unique(names),
        names.len() == counters.len(),
        !groups_view(names, counters).dom().contains(n@),
    ensures
        names_unique(names.push(n)),
        groups_view(names.push(n), counters.push(c)) == groups_view(names, counters).insert(n@, c),
{
    let ns = names.push(n);
    let cs = counters.push(c);
    assert forall|i: int, j: int| 0 <= i < j < ns.len() implies (#[trigger] ns[i])@ != (
    #[trigger] ns[j])@ by {
        if j == names.len() {
            assert(names[i]@ == ns[i]@);
        } else {
            assert(names[i]@ != names[j]@);
        }
    }
    let a = groups_view(ns, cs);
    let b = groups_view(names, counters).insert(n@, c);
    assert forall|g: Seq<char>| #[trigger] a.dom().contains(g) <==> b.dom().contains(g) by {
        if a.dom().contains(g) {
            let j = choose|j: int| 0 <= j < ns.len() && (#[trigger] ns[j])@ == g;
            if j < names.len() {
                assert(names[j]@ == g);
            }
        }
        if groups_view(names, counters).dom().contains(g) {
            let j = choose|j: int| 0 <= j < names.len() && (#[trigger] names[j])@ == g;
            assert(ns[j]@ == g);
        }
        if g == n@ {
            assert(ns[names.len() as int]@ == g);
        }
    }
    assert forall|g: Seq<char>| #[trigger] a.dom().contains(g) implies a[g] == b[g] by {
        let j = choose|j: int| 0 <= j < ns.len() && (#[trigger] ns[j])@ == g;
        lemma_groups_view_at(ns, cs, j);
        if j < names.len() {
            lemma_groups_view_at(names, counters, j);
        }
    }
    assert(a =~= b);
}

impl View for AdmissionController {
    type V = ControllerV;

    closed spec fn view(&self) -> ControllerV {
        ControllerV { global: self.global, groups: groups_view(self.names@, self.counters@) }
    }
}

impl AdmissionController {
    /// The internal invariant: one budget per distinct group name, and every
    /// budget within its limit.
    pub closed spec fn wf(&self) -> bool {
        &&& self.names@.len() == self.counters@.len()
        &&& names_unique(self.names@)
        &&& within_limit(self.global)
        &&& forall|i: int|
            0 <= i < self.counters@.len() ==> within_limit(#[trigger] self.counters@[i])
                && self.counters@[i].limit is Some
    }

    proof fn lemma_wf_view(&self)
        requires
            self.wf(),
        ensures
            controller_ok(self@),
    {
        assert forall|g: Seq<char>| #[trigger] self@.groups.dom().contains(g) implies within_limit(
            self@.groups[g],
        ) && self@.groups[g].limit is Some by {
            let j = choose|j: int| 0 <= j < self.names@.len() && (#[trigger] self.names@[j])@ == g;
            lemma_groups_view_at(self.names@, self.counters@, j);
        }
    }

    /// Index of the budget of `group`, if it is configured.
    fn find_group(&self, group: &str) -> (r: Option<usize>)
        requires
            self.wf(),
        ensures
            match r {
                Some(i) => i < self.names@.len() && self.names@[i as int]@ == group@,
                None => !self@.groups.dom().contains(group@),
            },
    {
        let wanted = group.to_owned();
        let mut i: usize = 0;
        while i < self.names.len()
            invariant
                self.wf(),
                i <= self.names@.len(),
                wanted@ == group@,
                forall|j: int| 0 <= j < i ==> (#[trigger] self.names@[j])@ != group@,
            decreases self.names@.len() - i,
        {
            if self.names[i] == wanted {
                return Some(i);
            }
            i = i + 1;
        }
        None
    }

    /// A controller for `limits`; refused when a group name is empty.
    pub fn new(limits: AdmissionLimits) -> (r: Result<Self, AdmissionConfigError>)
        ensures
            match r {
                Ok(c) => {
                    &&& !has_empty_group(limits)
                    &&& c.wf()
                    &&& c@ == initial_controller(limits)
                },
                Err(e) => e == AdmissionConfigError::EmptyGroupId && has_empty_group(limits),
            },
    {
        let entries = &limits.per_group;
        let ghost es = entries@;
        let mut k: usize = 0;
        while k < entries.len()
            invariant
                k <= es.len(),
                es == entries@,
                es == limits.per_group@,
                forall|j: int| 0 <= j < k ==> (#[trigger] es[j]).0@.len() != 0,
            decreases es.len() - k,
        {
            if entries[k].0.as_str().is_empty() {
                assert(es[k as int].0@.len() == 0);
                return Err(AdmissionConfigError::EmptyGroupId);
            }
            k = k + 1;
        }
        let mut controller = AdmissionController {
            global: AdmissionCounters { limit: limits.global, active: 0, admitted: 0, rejected: 0 },
            names: Vec::new(),
            counters: Vec::new(),
        };
        let mut i: usize = 0;
        assert(es.take(0) =~= Seq::<(String, usize)>::empty());
        assert(controller@.groups =~= Map::new(
            |g: Seq<char>| group_limits(es.take(0)).dom().contains(g),
            |g: Seq<char>| fresh_counters(Some(group_limits(es.take(0))[g])),
        ));
        while i < entries.len()
            invariant
                i <= es.len(),
                es == entries@,
                es == limits.per_group@,
                controller.wf(),
                controller.global == fresh_counters(limits.global),
                controller@.groups == Map::new(
                    |g: Seq<char>| group_limits(es.take(i as int)).dom().contains(g),
                    |g: Seq<char>| fresh_counters(Some(group_limits(es.take(i as int))[g])),
                ),
            decreases es.len() - i,
        {
            let name = &entries[i].0;
            let limit = entries[i].1;
            let found = controller.find_group(name.as_str());
            let ghost before = controller@.groups;
            proof {
                assert(es.take(i + 1).drop_last() =~= es.take(i as int));
                assert(es.take(i + 1).last() == es[i as int]);
            }
            if found.is_none() {
                let c = AdmissionCounters { limit: Some(limit), active: 0, admitted: 0, rejected: 0 };
                proof {
                    lemma_groups_view_push(controller.names@, controller.counters@, *name, c);
                }
                controller.names.push(name.clone());
                controller.counters.push(c);
                assert(controller@.groups =~= Map::new(
                    |g: Seq<char>| group_limits(es.take(i + 1)).dom().contains(g),
                    |g: Seq<char>| fresh_counters(Some(group_limits(es.take(i + 1))[g])),
                ));
            } else {
                let j = found.unwrap();
                proof {
                    lemma_groups_view_at(controller.names@, controller.counters@, j as int);
                }
                assert(controller@.groups =~= Map::new(
                    |g: Seq<char>| group_limits(es.take(i + 1)).dom().contains(g),
                    |g: Seq<char>| fresh_counters(Some(group_limits(es.take(i + 1))[g])),
                ));
            }
            i = i + 1;
        }
        assert(es.take(i as int) =~= es);
        Ok(controller)
    }

    /// Reserves a permit from the global budget and, when `group` names a
    /// configured group, from that group's budget too.
    fn try_acquire_inner(&mut self, group: Option<&str>) -> (r: Result<
        AdmissionPermit,
        AdmissionRejected,
    >)
        requires
            old(self).wf(),
        ensures
            final(self).wf(),
            final(self)@ == acquire_spec(old(self)@, opt_str_view(group)).0,
            match acquire_spec(old(self)@, opt_str_view(group)).1 {
                Ok(g) => r is Ok && r->Ok_0@ == g,
                Err(scope) => r == Err::<AdmissionPermit, AdmissionRejected>(AdmissionRejected { scope }),
            },
    {
        let slot: Option<usize> = match group {
            Some(g) => self.find_group(g),
            None => None,
        };
        proof {
            if let Some(i) = slot {
                lemma_groups_view_at(self.names@, self.counters@, i as int);
            }
        }
        let g = self.global;
        let global_free = g.active < usize::MAX && match g.limit {
            Some(l) => g.active < l,
            None => true,
        };
        if !global_free {
            self.global = AdmissionCounters { rejected: g.rejected.wrapping_add(1), ..g };
            return Err(AdmissionRejected { scope: AdmissionRejectScope::Global });
        }
        match slot {
            Some(i) => {
                let c = self.counters[i];
                let group_free = c.active < usize::MAX && match c.limit {
                    Some(l) => c.active < l,
                    None => true,
                };
                proof {
                    lemma_groups_view_set(self.names@, self.counters@, i as int, rejected_one(c));
                    lemma_groups_view_set(self.names@, self.counters@, i as int, admitted_one(c));
                }
                if !group_free {
                    self.global = AdmissionCounters { rejected: g.rejected.wrapping_add(1), ..g };
                    self.counters.set(i, AdmissionCounters { rejected: c.rejected.wrapping_add(1), ..c });
                    return Err(AdmissionRejected { scope: AdmissionRejectScope::Group });
                }
                self.global = AdmissionCounters {
                    active: g.active + 1,
                    admitted: g.admitted.wrapping_add(1),
                    ..g
                };
                self.counters.set(
                    i,
                    AdmissionCounters { active: c.active + 1, admitted: c.admitted.wrapping_add(1), ..c },
                );
                Ok(AdmissionPermit { group: Some(self.names[i].clone()) })
            },
            None => {
                self.global = AdmissionCounters {
                    active: g.active + 1,
                    admitted: g.admitted.wrapping_add(1),
                    ..g
                };
                Ok(AdmissionPermit { group: None })
            },
        }
    }

    /// Reserves the global budget for a resource without applying a group
    /// budget. The permit must be given back once the resource has stopped.
    pub fn try_acquire_global(&mut self) -> (r: Result<AdmissionPermit, AdmissionRejected>)
        requires
            old(self).wf(),
        ensures
            final(self).wf(),
            final(self)@ == acquire_spec(old(self)@, None).0,
            match acquire_spec(old(self)@, None).1 {
                Ok(g) => r is Ok && r->Ok_0@ == g,
                Err(scope) => r == Err::<AdmissionPermit, AdmissionRejected>(AdmissionRejected { scope }),
            },
    {
        self.try_acquire_inner(None)
    }

    /// Reserves the global budget and the budget of `group` when one is
    /// configured; a group without a limit still takes part in the global
    /// budget.
    pub fn try_acquire_group(&mut self, group: &str) -> (r: Result<AdmissionPermit, AdmissionRejected>)
        requires
            old(self).wf(),
        ensures
            final(self).wf(),
            final(self)@ == acquire_spec(old(self)@, Some(group@)).0,
            match acquire_spec(old(self)@, Some(group@)).1 {
                Ok(g) => r is Ok && r->Ok_0@ == g,
                Err(scope) => r == Err::<AdmissionPermit, AdmissionRejected>(AdmissionRejected { scope }),
            },
    {
        self.try_acquire_inner(Some(group))
    }

    /// `try_acquire_group` or `try_acquire_global`, without the reason of a
    /// rejection.
    pub fn try_acquire(&mut self, group: Option<&str>) -> (r: Option<AdmissionPermit>)
        requires
            old(self).wf(),
        ensures
            final(self).wf(),
            final(self)@ == acquire_spec(old(self)@, opt_str_view(group)).0,
            match acquire_spec(old(self)@, opt_str_view(group)).1 {
                Ok(g) => r is Some && r->Some_0@ == g,
                Err(_) => r is None,
            },
    {
        let r = match group {
            Some(g) => self.try_acquire_group(g),
            None => self.try_acquire_global(),
        };
        match r {
            Ok(p) => Some(p),
            Err(_) => None,
        }
    }

    /// The counts of the global budget.
    pub fn stats(&self) -> (r: AdmissionStats)
        ensures
            r == stats_of(self@.global),
    {
        AdmissionStats {
            admitted: self.global.admitted,
            rejected: self.global.rejected,
            active: self.global.active as u64,
        }
    }

    /// The counts of the budget of `group`, if it is configured.
    pub fn group_stats(&self, group: &str) -> (r: Option<AdmissionStats>)
        requires
            self.wf(),
        ensures
            r == (if self@.groups.dom().contains(group@) {
                Some(stats_of(self@.groups[group@]))
            } else {
                None
            }),
    {
        match self.find_group(group) {
            Some(i) => {
                proof {
                    lemma_groups_view_at(self.names@, self.counters@, i as int);
                }
                let c = self.counters[i];
                Some(AdmissionStats { admitted: c.admitted, rejected: c.rejected, active: c.active as u64 })
            },
            None => None,
        }
    }
}

/// The characters of an optional string slice.
pub open spec fn opt_str_view(o: Option<&str>) -> Option<Seq<char>> {
    match o {
        Some(s) => Some(s@),
        None => None,
    }
}

/// A reservation in the global budget and, when it names one, in the budget
/// of a configured group. It is given back with `release`.
pub struct AdmissionPermit {
    group: Option<String>,
}

impl View for AdmissionPermit {
    type V = Option<Seq<char>>;

    closed spec fn view(&self) -> Option<Seq<char>> {
        match self.group {
            Some(g) => Some(g@),
            None => None,
        }
    }
}

impl AdmissionPermit {
    /// Gives the reservation back to `controller`.
    pub fn release(self, controller: &mut AdmissionController)
        requires
            old(controller).wf(),
        ensures
            final(controller).wf(),
            final(controller)@ == release_spec(old(controller)@, self@),
    {
        let g = controller.global;
        if g.active > 0 {
            controller.global = AdmissionCounters { active: g.active - 1, ..g };
        }
        match &self.group {
            Some(name) => {
                match controller.find_group(name.as_str()) {
                    Some(i) => {
                        let c = controller.counters[i];
                        proof {
                            lemma_groups_view_at(controller.names@, controller.counters@, i as int);
                            lemma_groups_view_set(
                                controller.names@,
                                controller.counters@,
                                i as int,
                                released_one(c),
                            );
                        }
                        if c.active > 0 {
                            controller.counters.set(i, AdmissionCounters { active: c.active - 1, ..c });
                        } else {
                            assert(controller.counters@.update(i as int, c) =~= controller.counters@);
                        }
                    },
                    None => {},
                }
            },
            None => {},
        }
    }
}

/// No budget ever holds more permits than its limit: acquiring and giving
/// back permits keep every budget within its limit.
pub proof fn law_budgets_stay_within_limits(v: ControllerV, group: Option<Seq<char>>)
    requires
        controller_ok(v),
    ensures
        controller_ok(acquire_spec(v, group).0),
        controller_ok(release_spec(v, group)),
{
    let a = acquire_spec(v, group).0;
    assert forall|g: Seq<char>| #[trigger] a.groups.dom().contains(g) implies within_limit(a.groups[g])
        && a.groups[g].limit is Some by {
        assert(v.groups.dom().contains(g));
    }
    let r = release_spec(v, group);
    assert forall|g: Seq<char>| #[trigger] r.groups.dom().contains(g) implies within_limit(r.groups[g])
        && r.groups[g].limit is Some by {
        assert(v.groups.dom().contains(g));
    }
}

/// Giving back a permit right after acquiring it restores every active
/// count; the admission stays counted.
pub proof fn law_release_undoes_acquire(v: ControllerV, group: Option<Seq<char>>)
    requires
        controller_ok(v),
        acquire_spec(v, group).1 is Ok,
    ensures
        ({
            let after = release_spec(acquire_spec(v, group).0, acquire_spec(v, group).1->Ok_0);
            &&& after.global.active == v.global.active
            &&& after.global.admitted == v.global.admitted.wrapping_add(1)
            &&& after.groups.dom() == v.groups.dom()
            &&& forall|g: Seq<char>| #[trigger]
                v.groups.dom().contains(g) ==> after.groups[g].active == v.groups[g].active
        }),
{
    let after = release_spec(acquire_spec(v, group).0, acquire_spec(v, group).1->Ok_0);
    assert(after.groups.dom() =~= v.groups.dom());
}

/// A refused attempt holds no permit: every active count is unchanged, and
/// a refusal by the global budget leaves the group budgets untouched.
pub proof fn law_rejection_reserves_nothing(v: ControllerV, group: Option<Seq<char>>)
    requires
        acquire_spec(v, group).1 is Err,
    ensures
        ({
            let after = acquire_spec(v, group).0;
            &&& after.global.active == v.global.active
            &&& after.global.rejected == v.global.rejected.wrapping_add(1)
            &&& after.groups.dom() == v.groups.dom()
            &&& forall|g: Seq<char>| #[trigger]
                v.groups.dom().contains(g) ==> after.groups[g].active == v.groups[g].active
            &&& acquire_spec(v, group).1 == Err::<Option<Seq<char>>, AdmissionRejectScope>(
                AdmissionRejectScope::Global,
            ) ==> after.groups == v.groups
        }),
{
    let after = acquire_spec(v, group).0;
    assert(after.groups.dom() =~= v.groups.dom());
}

} // verus!
