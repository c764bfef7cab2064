//! The table of ingress listeners by port: which generation of a listener
//! owns a port and in which phase it is, so that stale completions, rollbacks
//! and shutdown never disturb a newer listener.

use vstd::prelude::*;

verus! {

/// The phase of a listener.
#[derive(Debug, Clone, Copy, PartialEq, Eq, Structural)]
pub enum ListenerState {
    Starting,
    Active,
    Draining,
}

/// What a listener serves.
#[derive(Debug, Clone, Copy, PartialEq, Eq, Structural)]
pub enum ListenerKind {
    Http,
    Tcp,
}

/// The listener that owns a port: its generation, kind and phase. The
/// tokens and tasks of a generation are kept by the caller.
#[derive(Debug, Clone, Copy, PartialEq, Eq, Structural)]
pub struct ListenerEntry {
    pub generation: u64,
    pub kind: ListenerKind,
    pub state: ListenerState,
}

/// A port taken for a new listener, with the listener it replaces.
#[derive(Debug, Clone, Copy, PartialEq, Eq, Structural)]
pub struct StartReservation {
    pub port: u16,
    pub generation: u64,
    pub predecessor: Option<ListenerEntry>,
}

/// A listener put to draining: its new generation and the generation it
/// had, whose workers are to stop.
#[derive(Debug, Clone, Copy, PartialEq, Eq, Structural)]
pub struct DrainReservation {
    pub port: u16,
    pub generation: u64,
    pub drained_generation: u64,
}

/// The state of a listener table.
pub struct TableV {
    pub next_generation: u64,
    pub shutting_down: bool,
    pub entries: Map<u16, ListenerEntry>,
}

/// The generation after `g`, skipping zero when the counter wraps.
pub open spec fn following_generation(g: u64) -> u64 {
    if g.wrapping_add(1) == 0 {
        1
    } else {
        g.wrapping_add(1)
    }
}

/// A listener on `port` that is starting or active with `kind`.
pub open spec fn already_serving(t: TableV, port: u16, kind: ListenerKind) -> bool {
    t.entries.contains_key(port) && t.entries[port].state != ListenerState::Draining
        && t.entries[port].kind == kind
}

/// Reserving `port` for a new listener of `kind`: refused while shutting
/// down or when the port already serves that kind; otherwise the port gets
/// a fresh generation in the starting phase, and the listener it had is
/// handed back.
pub open spec fn begin_start_spec(t: TableV, port: u16, kind: ListenerKind) -> (TableV, Option<
    StartReservation,
>) {
    if t.shutting_down || already_serving(t, port, kind) {
        (t, None)
    } else {
        let g = t.next_generation;
        (
            TableV {
                next_generation: following_generation(g),
                entries: t.entries.insert(
                    port,
                    ListenerEntry { generation: g, kind, state: ListenerState::Starting },
                ),
                ..t
            },
            Some(
                StartReservation {
                    port,
                    generation: g,
                    predecessor: if t.entries.contains_key(port) {
                        Some(t.entries[port])
                    } else {
                        None
                    },
                },
            ),
        )
    }
}

/// Putting the listener of `port` to draining under a fresh generation;
/// nothing happens when the port has no listener or it already drains.
pub open spec fn begin_drain_spec(t: TableV, port: u16) -> (TableV, Option<DrainReservation>) {
    if !t.entries.contains_key(port) || t.entries[port].state == ListenerState::Draining {
        (t, None)
    } else {
        let g = t.next_generation;
        let e = t.entries[port];
        (
            TableV {
                next_generation: following_generation(g),
                entries: t.entries.insert(
                    port,
                    ListenerEntry { generation: g, kind: e.kind, state: ListenerState::Draining },
                ),
                ..t
            },
            Some(DrainReservation { port, generation: g, drained_generation: e.generation }),
        )
    }
}

/// Generation `g` of `port` is still the starting listener.
pub open spec fn is_current_start_spec(t: TableV, port: u16, g: u64) -> bool {
    !t.shutting_down && t.entries.contains_key(port) && t.entries[port].generation == g
        && t.entries[port].state == ListenerState::Starting
}

/// Generation `g` of `port` in phase `s` leaves the table.
pub open spec fn remove_if_current_spec(t: TableV, port: u16, g: u64, s: ListenerState) -> (
    TableV,
    bool,
) {
    if t.entries.contains_key(port) && t.entries[port].generation == g && t.entries[port].state
        == s {
        (TableV { entries: t.entries.remove(port), ..t }, true)
    } else {
        (t, false)
    }
}

/// The predecessor goes back on `port` when the starting generation `g`
/// still owned the port, the table is not shutting down, and the
/// predecessor was active and, as its caller observed, still running.
pub open spec fn restore_predecessor_spec(
    t: TableV,
    port: u16,
    g: u64,
    predecessor: Option<ListenerEntry>,
    running: bool,
) -> (TableV, bool) {
    let (t1, removed) = remove_if_current_spec(t, port, g, ListenerState::Starting);
    match predecessor {
        Some(p) => if removed && !t1.shutting_down && p.state == ListenerState::Active && running {
            (TableV { entries: t1.entries.insert(port, p), ..t1 }, true)
        } else {
            (t1, false)
        },
        None => (t1, false),
    }
}

/// A failed start of generation `g`: its entry leaves the table whether it
/// was starting or already active, and the predecessor comes back when the
/// port still belonged to `g` (or to nobody), the table is not shutting down,
/// and the predecessor was active and still running.
pub open spec fn fail_start_spec(
    t: TableV,
    port: u16,
    g: u64,
    predecessor: Option<ListenerEntry>,
    running: bool,
) -> (TableV, bool) {
    let allows = !t.entries.contains_key(port) || (t.entries[port].generation == g && (
    t.entries[port].state == ListenerState::Starting || t.entries[port].state
        == ListenerState::Active));
    let t1 = remove_if_current_spec(t, port, g, ListenerState::Starting).0;
    let t2 = remove_if_current_spec(t1, port, g, ListenerState::Active).0;
    match predecessor {
        Some(p) => if allows && !t.shutting_down && p.state == ListenerState::Active && running {
            (TableV { entries: t2.entries.insert(port, p), ..t2 }, true)
        } else {
            (t2, false)
        },
        None => (t2, false),
    }
}

/// The values of an association list whose ports are distinct, by port.
pub open spec fn entries_view<V>(ports: Seq<u16>, entries: Seq<V>) -> Map<u16, V> {
    Map::new(
        |p: u16| exists|i: int| 0 <= i < ports.len() && ports[i] == p,
        |p: u16| entries[choose|i: int| 0 <= i < ports.len() && ports[i] == p],
    )
}

/// No port occurs twice.
pub open spec fn ports_unique(ports: Seq<u16>) -> bool {
    forall|i: int, j: int| 0 <= i < j < ports.len() ==> ports[i] != ports[j]
}

pub proof fn lemma_entries_at<V>(ports: Seq<u16>, entries: Seq<V>, i: int)
    requires
        ports_unique(ports),
        0 <= i < ports.len(),
    ensures
        entries_view(ports, entries).contains_key(ports[i]),
        entries_view(ports, entries)[ports[i]] == entries[i],
{
    let p = ports[i];
    let j = choose|j: int| 0 <= j < ports.len() && ports[j] == p;
    if j < i {
        assert(ports[j] != ports[i]);
    } else if j > i {
        assert(ports[i] != ports[j]);
    }
}

pub proof fn lemma_entries_set<V>(ports: Seq<u16>, entries: Seq<V>, i: int, e: V)
    requires
        ports_unique(ports),
        ports.len() == entries.len(),
        0 <= i < ports.len(),
    ensures
        entries_view(ports, entries.update(i, e)) == entries_view(ports, entries).insert(ports[i], e),
{
    let a = entries_view(ports, entries.update(i, e));
    let b = entries_view(ports, entries).insert(ports[i], e);
    lemma_entries_at(ports, entries, i);
    assert forall|p: u16| #[trigger] a.contains_key(p) implies a[p] == b[p] by {
        let j = choose|j: int| 0 <= j < ports.len() && ports[j] == p;
        lemma_entries_at(ports, entries.update(i, e), j);
        lemma_entries_at(ports, entries, j);
        if j != i {
            if j < i {
                assert(ports[j] != ports[i]);
            } else {
                assert(ports[i] != ports[j]);
            }
        }
    }
    assert(a =~= b);
}

pub proof fn lemma_entries_push<V>(ports: Seq<u16>, entries: Seq<V>, p: u16, e: V)
    requires
        ports_unique(ports),
        ports.len() == entries.len(),
        !entries_view(ports, entries).contains_key(p),
    ensures
        ports_unique(ports.push(p)),
        entries_view(ports.push(p), entries.push(e)) == entries_view(ports, entries).insert(p, e),
{
    let ps = ports.push(p);
    let es = entries.push(e);
    assert forall|i: int, j: int| 0 <= i < j < ps.len() implies ps[i] != ps[j] by {
        if j == ports.len() {
            assert(ports[i] == ps[i]);
        } else {
            assert(ports[i] != ports[j]);
        }
    }
    let a = entries_view(ps, es);
    let b = entries_view(ports, entries).insert(p, e);
    assert forall|q: u16| #[trigger] a.contains_key(q) <==> b.contains_key(q) by {
        if a.contains_key(q) {
            let j = choose|j: int| 0 <= j < ps.len() && ps[j] == q;
            if j < ports.len() {
                assert(ports[j] == q);
            }
        }
        if entries_view(ports, entries).contains_key(q) {
            let j = choose|j: int| 0 <= j < ports.len() && ports[j] == q;
            assert(ps[j] == q);
        }
        if q == p {
            assert(ps[ports.len() as int] == q);
        }
    }
    assert forall|q: u16| #[trigger] a.contains_key(q) implies a[q] == b[q] by {
        let j = choose|j: int| 0 <= j < ps.len() && ps[j] == q;
        lemma_entries_at(ps, es, j);
        if j < ports.len() {
            lemma_entries_at(ports, entries, j);
        }
    }
    assert(a =~= b);
}

pub proof fn lemma_entries_remove<V>(ports: Seq<u16>, entries: Seq<V>, i: int)
    requires
        ports_unique(ports),
        ports.len() == entries.len(),
        0 <= i < ports.len(),
    ensures
        ports_unique(ports.remove(i)),
        entries_view(ports.remove(i), entries.remove(i)) == entries_view(ports, entries).remove(
            ports[i],
        ),
{
    let ps = ports.remove(i);
    let es = entries.remove(i);
    assert forall|a: int, b: int| 0 <= a < b < ps.len() implies ps[a] != ps[b] by {
        let a0 = if a < i {
            a
        } else {
            a + 1
        };
        let b0 = if b < i {
            b
        } else {
            b + 1
        };
        assert(ps[a] == ports[a0]);
        assert(ps[b] == ports[b0]);
        assert(ports[a0] != ports[b0]);
    }
    let x = entries_view(ps, es);
    let y = entries_view(ports, entries).remove(ports[i]);
    assert forall|q: u16| #[trigger] x.contains_key(q) <==> y.contains_key(q) by {
        if x.contains_key(q) {
            let j = choose|j: int| 0 <= j < ps.len() && ps[j] == q;
            let j0 = if j < i {
                j
            } else {
                j + 1
            };
            assert(ports[j0] == q);
            if q == ports[i] {
                if j0 < i {
                    assert(ports[j0] != ports[i]);
                } else {
                    assert(ports[i] != ports[j0]);
                }
            }
        }
        if y.contains_key(q) {
            let j = choose|j: int| 0 <= j < ports.len() && ports[j] == q;
            assert(j != i);
            if j < i {
                assert(ps[j] == q);
            } else {
                assert(ps[j - 1] == q);
            }
        }
    }
    assert forall|q: u16| #[trigger] x.contains_key(q) implies x[q] == y[q] by {
        let j = choose|j: int| 0 <= j < ps.len() && ps[j] == q;
        lemma_entries_at(ps, es, j);
        let j0 = if j < i {
            j
        } else {
            j + 1
        };
        assert(ps[j] == ports[j0]);
        assert(es[j] == entries[j0]);
        lemma_entries_at(ports, entries, j0);
    }
    assert(x =~= y);
}

/// The ports named, as a sequence.
pub open spec fn opt_ports(affected: Option<&Vec<u16>>) -> Option<Seq<u16>> {
    match affected {
        None => None,
        Some(v) => Some(v@),
    }
}

/// The map of (port, kind) pairs whose ports are distinct.
pub open spec fn pairs_map(pairs: Seq<(u16, ListenerKind)>) -> Map<u16, ListenerKind> {
    Map::new(
        |p: u16| exists|i: int| 0 <= i < pairs.len() && pairs[i].0 == p,
        |p: u16| pairs[choose|i: int| 0 <= i < pairs.len() && pairs[i].0 == p].1,
    )
}

proof fn lemma_pairs_map_at(pairs: Seq<(u16, ListenerKind)>)
    requires
        forall|a: int, b: int| 0 <= a < b < pairs.len() ==> pairs[a].0 != pairs[b].0,
    ensures
        forall|i: int|
            0 <= i < pairs.len() ==> pairs_map(pairs).contains_key(#[trigger] pairs[i].0)
                && pairs_map(pairs)[pairs[i].0] == pairs[i].1,
{
    assert forall|i: int| 0 <= i < pairs.len() implies pairs_map(pairs).contains_key(
        #[trigger] pairs[i].0,
    ) && pairs_map(pairs)[pairs[i].0] == pairs[i].1 by {
        let j = choose|j: int| 0 <= j < pairs.len() && pairs[j].0 == pairs[i].0;
        if j < i {
            assert(pairs[j].0 != pairs[i].0);
        } else if j > i {
            assert(pairs[i].0 != pairs[j].0);
        }
    }
}

proof fn lemma_pairs_map_set(pairs: Seq<(u16, ListenerKind)>, k: int, x: (u16, ListenerKind))
    requires
        forall|a: int, b: int| 0 <= a < b < pairs.len() ==> pairs[a].0 != pairs[b].0,
        0 <= k < pairs.len(),
        pairs[k].0 == x.0,
    ensures
        forall|a: int, b: int| 0 <= a < b < pairs.update(k, x).len() ==> pairs.update(k, x)[a].0 != pairs.update(k, x)[b].0,
        pairs_map(pairs.update(k, x)) == pairs_map(pairs).insert(x.0, x.1),
{
    let q = pairs.update(k, x);
    assert forall|a: int, b: int| 0 <= a < b < q.len() implies q[a].0 != q[b].0 by {
        assert(pairs[a].0 != pairs[b].0);
    }
    lemma_pairs_map_at(pairs);
    lemma_pairs_map_at(q);
    let l = pairs_map(q);
    let r = pairs_map(pairs).insert(x.0, x.1);
    assert forall|p: u16| #[trigger] l.contains_key(p) <==> r.contains_key(p) by {
        if l.contains_key(p) {
            let j = choose|j: int| 0 <= j < q.len() && q[j].0 == p;
            assert(pairs[j].0 == p);
        }
        if pairs_map(pairs).contains_key(p) {
            let j = choose|j: int| 0 <= j < pairs.len() && pairs[j].0 == p;
            assert(q[j].0 == p);
        }
    }
    assert forall|p: u16| #[trigger] l.contains_key(p) implies l[p] == r[p] by {
        let j = choose|j: int| 0 <= j < q.len() && q[j].0 == p;
        assert(l[q[j].0] == q[j].1);
        if j != k {
            assert(pairs_map(pairs)[pairs[j].0] == pairs[j].1);
        }
    }
    assert(l =~= r);
}

proof fn lemma_pairs_map_push(pairs: Seq<(u16, ListenerKind)>, x: (u16, ListenerKind))
    requires
        forall|a: int, b: int| 0 <= a < b < pairs.len() ==> pairs[a].0 != pairs[b].0,
        forall|j: int| 0 <= j < pairs.len() ==> pairs[j].0 != x.0,
    ensures
        forall|a: int, b: int| 0 <= a < b < pairs.push(x).len() ==> pairs.push(x)[a].0 != pairs.push(x)[b].0,
        pairs_map(pairs.push(x)) == pairs_map(pairs).insert(x.0, x.1),
{
    let q = pairs.push(x);
    assert forall|a: int, b: int| 0 <= a < b < q.len() implies q[a].0 != q[b].0 by {
        if b < pairs.len() {
            assert(pairs[a].0 != pairs[b].0);
        } else {
            assert(q[a] == pairs[a]);
        }
    }
    lemma_pairs_map_at(pairs);
    lemma_pairs_map_at(q);
    let l = pairs_map(q);
    let r = pairs_map(pairs).insert(x.0, x.1);
    assert forall|p: u16| #[trigger] l.contains_key(p) <==> r.contains_key(p) by {
        if l.contains_key(p) {
            let j = choose|j: int| 0 <= j < q.len() && q[j].0 == p;
            if j < pairs.len() {
                assert(pairs[j].0 == p);
            }
        }
        if pairs_map(pairs).contains_key(p) {
            let j = choose|j: int| 0 <= j < pairs.len() && pairs[j].0 == p;
            assert(q[j].0 == p);
        }
        if p == x.0 {
            assert(q[pairs.len() as int].0 == p);
        }
    }
    assert forall|p: u16| #[trigger] l.contains_key(p) implies l[p] == r[p] by {
        let j = choose|j: int| 0 <= j < q.len() && q[j].0 == p;
        assert(l[q[j].0] == q[j].1);
        if j < pairs.len() {
            assert(pairs_map(pairs)[pairs[j].0] == pairs[j].1);
        }
    }
    assert(l =~= r);
}

/// `p` is among the first `j` of `ports`.
pub open spec fn seen_port(ports: Seq<u16>, j: int, p: u16) -> bool {
    exists|y: int| 0 <= y < j && ports[y] == p
}

/// Whether `port` is in scope.
fn scope_contains(affected: Option<&Vec<u16>>, port: u16) -> (r: bool)
    ensures
        r == in_scope(opt_ports(affected), port),
{
    match affected {
        None => true,
        Some(a) => {
            let mut i: usize = 0;
            while i < a.len()
                invariant
                    i <= a@.len(),
                    opt_ports(affected) == Some(a@),
                    forall|j: int| 0 <= j < i ==> a@[j] != port,
                decreases a@.len() - i,
            {
                if a[i] == port {
                    assert(a@[i as int] == port);
                    assert(a@.contains(port));
                    assert(opt_ports(affected) == Some(a@));
                    return true;
                }
                i = i + 1;
            }
            false
        },
    }
}

/// Whether a pair of `pairs` has port `port`.
fn pairs_contain(pairs: &Vec<(u16, ListenerKind)>, port: u16) -> (r: bool)
    ensures
        r == pairs_map(pairs@).contains_key(port),
{
    let mut i: usize = 0;
    while i < pairs.len()
        invariant
            i <= pairs@.len(),
            forall|j: int| 0 <= j < i ==> pairs@[j].0 != port,
        decreases pairs@.len() - i,
    {
        if pairs[i].0 == port {
            return true;
        }
        i = i + 1;
    }
    false
}

/// The listeners of a server, by port.
pub struct ListenerTable {
    next_generation: u64,
    shutting_down: bool,
    ports: Vec<u16>,
    entries: Vec<ListenerEntry>,
}

impl View for ListenerTable {
    type V = TableV;

    closed spec fn view(&self) -> TableV {
        TableV {
            next_generation: self.next_generation,
            shutting_down: self.shutting_down,
            entries: entries_view(self.ports@, self.entries@),
        }
    }
}

impl ListenerTable {
    /// The internal invariant: one entry per port, and a generation counter
    /// that never hands out zero.
    pub closed spec fn wf(&self) -> bool {
        &&& self.ports@.len() == self.entries@.len()
        &&& ports_unique(self.ports@)
        &&& self.next_generation >= 1
    }

    /// An empty table at generation 1.
    pub fn new() -> (r: Self)
        ensures
            r.wf(),
            r@.next_generation == 1,
            !r@.shutting_down,
            r@.entries == Map::<u16, ListenerEntry>::empty(),
    {
        let r = ListenerTable { next_generation: 1, shutting_down: false, ports: Vec::new(), entries: Vec::new() };
        assert(r@.entries =~= Map::<u16, ListenerEntry>::empty());
        r
    }

    fn find(&self, port: u16) -> (r: Option<usize>)
        requires
            self.wf(),
        ensures
            match r {
                Some(i) => i < self.ports@.len() && self.ports@[i as int] == port && self@.entries.contains_key(
                    port,
                ) && self@.entries[port] == self.entries@[i as int],
                None => !self@.entries.contains_key(port),
            },
    {
        let mut i: usize = 0;
        while i < self.ports.len()
            invariant
                self.wf(),
                i <= self.ports@.len(),
                forall|j: int| 0 <= j < i ==> self.ports@[j] != port,
            decreases self.ports@.len() - i,
        {
            if self.ports[i] == port {
                proof {
                    lemma_entries_at(self.ports@, self.entries@, i as int);
                }
                return Some(i);
            }
            i = i + 1;
        }
        None
    }

    /// The listener on `port`.
    pub fn get(&self, port: u16) -> (r: Option<ListenerEntry>)
        requires
            self.wf(),
        ensures
            match r {
                Some(e) => self@.entries.contains_key(port) && self@.entries[port] == e,
                None => !self@.entries.contains_key(port),
            },
    {
        match self.find(port) {
            Some(i) => Some(self.entries[i]),
            None => None,
        }
    }

    /// Whether the table is shutting down.
    pub fn is_shutting_down(&self) -> (r: bool)
        ensures
            r == self@.shutting_down,
    {
        self.shutting_down
    }

    fn allocate_generation(&mut self) -> (g: u64)
        requires
            old(self).wf(),
        ensures
            final(self).wf(),
            g == old(self)@.next_generation,
            final(self)@.next_generation == following_generation(g),
            final(self)@.shutting_down == old(self)@.shutting_down,
            final(self)@.entries == old(self)@.entries,
    {
        let g = self.next_generation;
        let n = g.wrapping_add(1);
        self.next_generation = if n == 0 {
            1
        } else {
            n
        };
        g
    }

    fn put(&mut self, port: u16, e: ListenerEntry)
        requires
            old(self).wf(),
        ensures
            final(self).wf(),
            final(self)@ == (TableV { entries: old(self)@.entries.insert(port, e), ..old(self)@ }),
    {
        match self.find(port) {
            Some(i) => {
                proof {
                    lemma_entries_set(self.ports@, self.entries@, i as int, e);
                }
                self.entries.set(i, e);
            },
            None => {
                proof {
                    lemma_entries_push(self.ports@, self.entries@, port, e);
                }
                self.ports.push(port);
                self.entries.push(e);
            },
        }
        assert(self@.entries =~= old(self)@.entries.insert(port, e));
    }

    fn take(&mut self, port: u16)
        requires
            old(self).wf(),
        ensures
            final(self).wf(),
            final(self)@ == (TableV { entries: old(self)@.entries.remove(port), ..old(self)@ }),
    {
        match self.find(port) {
            Some(i) => {
                proof {
                    lemma_entries_remove(self.ports@, self.entries@, i as int);
                }
                self.ports.remove(i);
                self.entries.remove(i);
            },
            None => {
                assert(self@.entries =~= old(self)@.entries.remove(port));
            },
        }
    }

    /// Reserves `port` for a new listener of `kind`.
    pub fn begin_start(&mut self, port: u16, kind: ListenerKind) -> (r: Option<StartReservation>)
        requires
            old(self).wf(),
        ensures
            final(self).wf(),
            (final(self)@, r) == begin_start_spec(old(self)@, port, kind),
    {
        if self.shutting_down {
            return None;
        }
        let current = self.get(port);
        if let Some(e) = current {
            if e.state != ListenerState::Draining && e.kind == kind {
                return None;
            }
        }
        let generation = self.allocate_generation();
        self.put(port, ListenerEntry { generation, kind, state: ListenerState::Starting });
        Some(StartReservation { port, generation, predecessor: current })
    }

    /// Puts the listener of `port` to draining.
    pub fn begin_drain(&mut self, port: u16) -> (r: Option<DrainReservation>)
        requires
            old(self).wf(),
        ensures
            final(self).wf(),
            (final(self)@, r) == begin_drain_spec(old(self)@, port),
    {
        let e = match self.get(port) {
            Some(e) => e,
            None => return None,
        };
        if e.state == ListenerState::Draining {
            return None;
        }
        let generation = self.allocate_generation();
        self.put(port, ListenerEntry { generation, kind: e.kind, state: ListenerState::Draining });
        Some(DrainReservation { port, generation, drained_generation: e.generation })
    }

    /// Whether generation `generation` of `port` is still the starting
    /// listener.
    pub fn is_current_start(&self, port: u16, generation: u64) -> (r: bool)
        requires
            self.wf(),
        ensures
            r == is_current_start_spec(self@, port, generation),
    {
        if self.shutting_down {
            return false;
        }
        match self.get(port) {
            Some(e) => e.generation == generation && e.state == ListenerState::Starting,
            None => false,
        }
    }

    /// Marks the starting generation `generation` of `port` active; a stale
    /// generation changes nothing.
    pub fn complete_start(&mut self, port: u16, generation: u64) -> (r: bool)
        requires
            old(self).wf(),
        ensures
            final(self).wf(),
            r == is_current_start_spec(old(self)@, port, generation),
            final(self)@ == (if r {
                TableV {
                    entries: old(self)@.entries.insert(
                        port,
                        ListenerEntry { state: ListenerState::Active, ..old(self)@.entries[port] },
                    ),
                    ..old(self)@
                }
            } else {
                old(self)@
            }),
    {
        if !self.is_current_start(port, generation) {
            return false;
        }
        let e = self.get(port).unwrap();
        self.put(port, ListenerEntry { state: ListenerState::Active, ..e });
        true
    }

    /// Removes generation `generation` of `port` when it is in phase
    /// `state`.
    pub fn remove_if_current(&mut self, port: u16, generation: u64, state: ListenerState) -> (r: bool)
        requires
            old(self).wf(),
        ensures
            final(self).wf(),
            (final(self)@, r) == remove_if_current_spec(old(self)@, port, generation, state),
    {
        match self.get(port) {
            Some(e) => {
                if e.generation == generation && e.state == state {
                    self.take(port);
                    true
                } else {
                    false
                }
            },
            None => false,
        }
    }

    /// Rolls back the starting generation `generation` of `port`, putting
    /// back the listener it replaced when that one may serve again;
    /// `running` tells whether the predecessor's workers still run. Returns
    /// whether the predecessor came back (otherwise the caller stops it).
    pub fn restore_predecessor(
        &mut self,
        port: u16,
        generation: u64,
        predecessor: Option<ListenerEntry>,
        running: bool,
    ) -> (r: bool)
        requires
            old(self).wf(),
        ensures
            final(self).wf(),
            (final(self)@, r) == restore_predecessor_spec(
                old(self)@,
                port,
                generation,
                predecessor,
                running,
            ),
    {
        let removed = self.remove_if_current(port, generation, ListenerState::Starting);
        match predecessor {
            Some(p) => {
                if removed && !self.shutting_down && p.state == ListenerState::Active && running {
                    self.put(port, p);
                    true
                } else {
                    false
                }
            },
            None => false,
        }
    }

    /// Whether the workers of generation `generation` of `port` may be
    /// recorded: it must still own the port and be active.
    pub fn accepts_worker_handles(&self, port: u16, generation: u64) -> (r: bool)
        requires
            self.wf(),
        ensures
            r == (self@.entries.contains_key(port) && self@.entries[port].generation == generation
                && self@.entries[port].state == ListenerState::Active),
    {
        match self.get(port) {
            Some(e) => e.generation == generation && e.state == ListenerState::Active,
            None => false,
        }
    }

    /// Rolls back a failed start of generation `generation` of `port`.
    /// Returns whether the predecessor came back (otherwise the caller stops
    /// it).
    pub fn fail_start(
        &mut self,
        port: u16,
        generation: u64,
        predecessor: Option<ListenerEntry>,
        running: bool,
    ) -> (r: bool)
        requires
            old(self).wf(),
        ensures
            final(self).wf(),
            (final(self)@, r) == fail_start_spec(old(self)@, port, generation, predecessor, running),
    {
        let allows = match self.get(port) {
            None => true,
            Some(e) => e.generation == generation && (e.state == ListenerState::Starting || e.state
                == ListenerState::Active),
        };
        let shutting_down = self.shutting_down;
        self.remove_if_current(port, generation, ListenerState::Starting);
        self.remove_if_current(port, generation, ListenerState::Active);
        match predecessor {
            Some(p) => {
                if allows && !shutting_down && p.state == ListenerState::Active && running {
                    self.put(port, p);
                    true
                } else {
                    false
                }
            },
            None => false,
        }
    }

    /// Stops the table: no listener may start or complete any more, and the
    /// listeners it held are handed back as (port, generation) pairs.
    pub fn begin_shutdown(&mut self) -> (r: Vec<(u16, u64)>)
        requires
            old(self).wf(),
        ensures
            final(self).wf(),
            final(self)@.shutting_down,
            final(self)@.next_generation == old(self)@.next_generation,
            final(self)@.entries == Map::<u16, ListenerEntry>::empty(),
            r@.len() == old(self)@.entries.dom().len(),
            forall|p: u16, g: u64|
                r@.contains((p, g)) <==> (old(self)@.entries.contains_key(p)
                    && old(self)@.entries[p].generation == g),
    {
        let ghost before = self@;
        let ghost ps = self.ports@;
        let ghost es = self.entries@;
        let mut out: Vec<(u16, u64)> = Vec::new();
        let mut i: usize = 0;
        while i < self.ports.len()
            invariant
                self.wf(),
                self@ == before,
                ps == self.ports@,
                es == self.entries@,
                i <= ps.len(),
                out@.len() == i,
                forall|j: int| 0 <= j < i ==> out@[j] == (ps[j], es[j].generation),
            decreases ps.len() - i,
        {
            out.push((self.ports[i], self.entries[i].generation));
            i = i + 1;
        }
        proof {
            assert forall|p: u16, g: u64|
                out@.contains((p, g)) <==> (before.entries.contains_key(p)
                    && before.entries[p].generation == g) by {
                if out@.contains((p, g)) {
                    let j = choose|j: int| 0 <= j < out@.len() && out@[j] == (p, g);
                    lemma_entries_at(ps, es, j);
                }
                if before.entries.contains_key(p) && before.entries[p].generation == g {
                    let j = choose|j: int| 0 <= j < ps.len() && ps[j] == p;
                    lemma_entries_at(ps, es, j);
                    assert(out@[j] == (p, g));
                }
            }
            assert(before.entries.dom() =~= ps.to_set());
            ps.unique_seq_to_set();
        }
        self.shutting_down = true;
        self.ports = Vec::new();
        self.entries = Vec::new();
        assert(self@.entries =~= Map::<u16, ListenerEntry>::empty());
        out
    }
}

/// The listener changes one synchronisation commits: the ports to drain
/// and the (port, kind) pairs to start.
pub struct SyncPlan {
    pub drains: Vec<u16>,
    pub starts: Vec<(u16, ListenerKind)>,
}

/// `port` is among the ports a synchronisation touches (all when none are
/// named).
pub open spec fn in_scope(affected: Option<Seq<u16>>, port: u16) -> bool {
    match affected {
        None => true,
        Some(a) => a.contains(port),
    }
}

/// The desired listeners in scope, by port; a later entry for a port
/// replaces an earlier one.
pub open spec fn desired_by_port(desired: Seq<(u16, ListenerKind)>, affected: Option<Seq<u16>>) -> Map<
    u16,
    ListenerKind,
>
    decreases desired.len(),
{
    if desired.len() == 0 {
        Map::empty()
    } else {
        let m = desired_by_port(desired.drop_last(), affected);
        if in_scope(affected, desired.last().0) {
            m.insert(desired.last().0, desired.last().1)
        } else {
            m
        }
    }
}

/// The ports a synchronisation drains: listened on, in scope, no longer
/// desired.
pub open spec fn planned_drains(
    t: TableV,
    desired: Seq<(u16, ListenerKind)>,
    affected: Option<Seq<u16>>,
) -> Set<u16> {
    Set::new(
        |p: u16|
            t.entries.contains_key(p) && in_scope(affected, p) && !desired_by_port(
                desired,
                affected,
            ).contains_key(p),
    )
}

/// The listeners a synchronisation starts: desired and not already
/// serving their kind.
pub open spec fn planned_starts(
    t: TableV,
    desired: Seq<(u16, ListenerKind)>,
    affected: Option<Seq<u16>>,
) -> Map<u16, ListenerKind> {
    let m = desired_by_port(desired, affected);
    Map::new(|p: u16| m.contains_key(p) && !already_serving(t, p, m[p]), |p: u16| m[p])
}

/// A plan that can be committed on `t` without a start being refused: no
/// port started twice, no start on a port that is drained, and each start
/// refused by neither shutdown nor a listener already serving its kind.
pub open spec fn plan_fits(t: TableV, drains: Seq<u16>, starts: Seq<(u16, ListenerKind)>) -> bool {
    &&& forall|i: int, j: int| 0 <= i < j < starts.len() ==> starts[i].0 != starts[j].0
    &&& forall|i: int, j: int| 0 <= i < drains.len() && 0 <= j < starts.len() ==> drains[i] != starts[j].0
    &&& forall|j: int|
        0 <= j < starts.len() ==> !t.shutting_down && !already_serving(
            t,
            (#[trigger] starts[j]).0,
            starts[j].1,
        )
}

/// Draining `ports` in order: the table after, and the reservations made.
pub open spec fn drain_all(t: TableV, ports: Seq<u16>) -> (TableV, Seq<DrainReservation>)
    decreases ports.len(),
{
    if ports.len() == 0 {
        (t, Seq::empty())
    } else {
        let (t1, rs) = drain_all(t, ports.drop_last());
        let (t2, r) = begin_drain_spec(t1, ports.last());
        (
            t2,
            match r {
                Some(x) => rs.push(x),
                None => rs,
            },
        )
    }
}

/// Starting `starts` in order: the table after, and the reservations made.
pub open spec fn start_all(t: TableV, starts: Seq<(u16, ListenerKind)>) -> (TableV, Seq<
    StartReservation,
>)
    decreases starts.len(),
{
    if starts.len() == 0 {
        (t, Seq::empty())
    } else {
        let (t1, rs) = start_all(t, starts.drop_last());
        let (t2, r) = begin_start_spec(t1, starts.last().0, starts.last().1);
        (
            t2,
            match r {
                Some(x) => rs.push(x),
                None => rs,
            },
        )
    }
}

impl ListenerTable {
    /// Plans a synchronisation with the `desired` listeners, limited to the
    /// `affected` ports when given: nothing while shutting down; otherwise
    /// each port to drain once, and each listener to start once.
    pub fn plan_sync(&self, desired: &Vec<(u16, ListenerKind)>, affected: Option<&Vec<u16>>) -> (r:
        SyncPlan)
        requires
            self.wf(),
        ensures
            self@.shutting_down ==> r.drains@.len() == 0 && r.starts@.len() == 0,
            !self@.shutting_down ==> r.drains@.no_duplicates(),
            !self@.shutting_down ==> r.drains@.to_set() == planned_drains(
                self@,
                desired@,
                opt_ports(affected),
            ),
            forall|i: int, j: int| 0 <= i < j < r.starts@.len() ==> r.starts@[i].0 != r.starts@[j].0,
            forall|i: int|
                0 <= i < r.starts@.len() ==> planned_starts(
                    self@,
                    desired@,
                    opt_ports(affected),
                ).contains_key(#[trigger] r.starts@[i].0) && planned_starts(
                    self@,
                    desired@,
                    opt_ports(affected),
                )[r.starts@[i].0] == r.starts@[i].1,
            !self@.shutting_down ==> forall|p: u16|
                #[trigger] planned_starts(self@, desired@, opt_ports(affected)).contains_key(p)
                    ==> exists|i: int| 0 <= i < r.starts@.len() && r.starts@[i].0 == p,
            plan_fits(self@, r.drains@, r.starts@),
    {
        let ghost aff = opt_ports(affected);
        if self.shutting_down {
            return SyncPlan { drains: Vec::new(), starts: Vec::new() };
        }
        // The desired listeners in scope, one per port.
        let mut want: Vec<(u16, ListenerKind)> = Vec::new();
        let mut i: usize = 0;
        while i < desired.len()
            invariant
                i <= desired@.len(),
                aff == opt_ports(affected),
                forall|a: int, b: int| 0 <= a < b < want@.len() ==> want@[a].0 != want@[b].0,
                pairs_map(want@) == desired_by_port(desired@.take(i as int), aff),
            decreases desired@.len() - i,
        {
            let (port, kind) = desired[i];
            assert(desired@.take(i + 1).drop_last() =~= desired@.take(i as int));
            assert(desired@.take(i + 1).last() == (port, kind));
            if scope_contains(affected, port) {
                let mut k: usize = 0;
                while k < want.len() && want[k].0 != port
                    invariant
                        k <= want@.len(),
                        forall|j: int| 0 <= j < k ==> want@[j].0 != port,
                    decreases want@.len() - k,
                {
                    k = k + 1;
                }
                let ghost before = want@;
                if k < want.len() {
                    want.set(k, (port, kind));
                    proof {
                        lemma_pairs_map_set(before, k as int, (port, kind));
                    }
                } else {
                    want.push((port, kind));
                    proof {
                        lemma_pairs_map_push(before, (port, kind));
                    }
                }
            }
            i = i + 1;
        }
        assert(desired@.take(i as int) =~= desired@);
        let ghost m = desired_by_port(desired@, aff);
        // Ports listened on, in scope, no longer desired.
        let mut drains: Vec<u16> = Vec::new();
        let mut j: usize = 0;
        while j < self.ports.len()
            invariant
                self.wf(),
                j <= self.ports@.len(),
                aff == opt_ports(affected),
                m == pairs_map(want@),
                forall|a: int, b: int| 0 <= a < b < want@.len() ==> want@[a].0 != want@[b].0,
                drains@.no_duplicates(),
                forall|x: int|
                    #![trigger drains@[x]]
                    0 <= x < drains@.len() ==> exists|y: int|
                        #![trigger self.ports@[y]]
                        0 <= y < j && self.ports@[y] == drains@[x],
                forall|p: u16|
                    #![trigger drains@.contains(p)]
                    #![trigger seen_port(self.ports@, j as int, p)]
                    drains@.contains(p) <==> seen_port(self.ports@, j as int, p) && in_scope(aff, p)
                        && !m.contains_key(p),
            decreases self.ports@.len() - j,
        {
            let port = self.ports[j];
            let ghost old_d = drains@;
            let take = scope_contains(affected, port) && !pairs_contain(&want, port);
            if take {
                proof {
                    assert forall|x: int| 0 <= x < drains@.len() implies drains@[x] != port by {
                        let y = choose|y: int| 0 <= y < j && self.ports@[y] == drains@[x];
                        assert(self.ports@[y] != self.ports@[j as int]);
                    }
                }
                drains.push(port);
            }
            proof {
                assert forall|p: u16|
                    #![trigger drains@.contains(p)]
                    #![trigger seen_port(self.ports@, j + 1, p)]
                    drains@.contains(p) <==> seen_port(self.ports@, j + 1, p) && in_scope(aff, p)
                        && !m.contains_key(p) by {
                    if drains@.contains(p) {
                        let x = choose|x: int| 0 <= x < drains@.len() && drains@[x] == p;
                        if x < old_d.len() {
                            assert(old_d[x] == p);
                            assert(old_d.contains(p));
                            assert(seen_port(self.ports@, j as int, p));
                            let y = choose|y: int| 0 <= y < j && self.ports@[y] == p;
                            assert(self.ports@[y] == p);
                        } else {
                            assert(self.ports@[j as int] == p);
                        }
                    }
                    if seen_port(self.ports@, j + 1, p) && in_scope(aff, p) && !m.contains_key(p) {
                        let y = choose|y: int| 0 <= y < j + 1 && self.ports@[y] == p;
                        if y < j {
                            assert(seen_port(self.ports@, j as int, p));
                            assert(old_d.contains(p));
                            let x = choose|x: int| 0 <= x < old_d.len() && old_d[x] == p;
                            assert(drains@[x] == p);
                        } else {
                            assert(take);
                            assert(drains@[drains@.len() - 1] == p);
                        }
                    }
                }
                assert forall|x: int|
                    #![trigger drains@[x]]
                    0 <= x < drains@.len() implies exists|y: int|
                        #![trigger self.ports@[y]]
                        0 <= y < j + 1 && self.ports@[y] == drains@[x] by {
                    if x < old_d.len() {
                        assert(old_d[x] == drains@[x]);
                        let y = choose|y: int| 0 <= y < j && self.ports@[y] == old_d[x];
                        assert(self.ports@[y] == drains@[x]);
                    } else {
                        assert(self.ports@[j as int] == drains@[x]);
                    }
                }
            }
            j = j + 1;
        }
        proof {
            assert forall|p: u16| #[trigger] drains@.to_set().contains(p) <==> planned_drains(
                self@,
                desired@,
                aff,
            ).contains(p) by {
                if self@.entries.contains_key(p) {
                    let y = choose|y: int| 0 <= y < self.ports@.len() && self.ports@[y] == p;
                    assert(seen_port(self.ports@, j as int, p));
                }
                if seen_port(self.ports@, j as int, p) {
                    let y = choose|y: int| 0 <= y < j && self.ports@[y] == p;
                    lemma_entries_at(self.ports@, self.entries@, y);
                }
            }
            assert(drains@.to_set() =~= planned_drains(self@, desired@, aff));
        }
        // Desired listeners not already serving their kind.
        let mut starts: Vec<(u16, ListenerKind)> = Vec::new();
        let mut k: usize = 0;
        while k < want.len()
            invariant
                self.wf(),
                k <= want@.len(),
                aff == opt_ports(affected),
                m == pairs_map(want@),
                m == desired_by_port(desired@, aff),
                drains@.no_duplicates(),
                drains@.to_set() == planned_drains(self@, desired@, aff),
                forall|a: int, b: int| 0 <= a < b < want@.len() ==> want@[a].0 != want@[b].0,
                forall|x: int|
                    #![trigger starts@[x]]
                    0 <= x < starts@.len() ==> exists|y: int|
                        #![trigger want@[y]]
                        0 <= y < k && want@[y] == starts@[x],
                forall|y: int|
                    0 <= y < k && !already_serving(self@, want@[y].0, want@[y].1) ==> starts@.contains(
                        #[trigger] want@[y],
                    ),
                forall|x: int| 0 <= x < starts@.len() ==> !already_serving(self@, #[trigger] starts@[x].0, starts@[x].1),
                forall|a: int, b: int| 0 <= a < b < starts@.len() ==> starts@[a].0 != starts@[b].0,
            decreases want@.len() - k,
        {
            let (port, kind) = want[k];
            let serving = match self.get(port) {
                Some(e) => e.state != ListenerState::Draining && e.kind == kind,
                None => false,
            };
            assert(serving == already_serving(self@, want@[k as int].0, want@[k as int].1));
            let ghost old_s = starts@;
            if !serving {
                proof {
                    assert forall|x: int| 0 <= x < starts@.len() implies starts@[x].0 != port by {
                        let y = choose|y: int| 0 <= y < k && #[trigger] want@[y] == starts@[x];
                        assert(want@[y].0 != want@[k as int].0);
                    }
                }
                starts.push((port, kind));
            }
            proof {
                assert forall|y: int|
                    0 <= y < k + 1 && !already_serving(self@, want@[y].0, want@[y].1) implies starts@.contains(
                    #[trigger] want@[y],
                ) by {
                    if y < k {
                        let x = choose|x: int| 0 <= x < old_s.len() && old_s[x] == want@[y];
                        assert(starts@[x] == want@[y]);
                    } else {
                        assert(starts@[starts@.len() - 1] == want@[k as int]);
                    }
                }
                assert forall|x: int|
                    #![trigger starts@[x]]
                    0 <= x < starts@.len() implies exists|y: int|
                        #![trigger want@[y]]
                        0 <= y < k + 1 && want@[y] == starts@[x] by {
                    if x < old_s.len() {
                        assert(old_s[x] == starts@[x]);
                        let y = choose|y: int| 0 <= y < k && want@[y] == old_s[x];
                        assert(want@[y] == starts@[x]);
                    } else {
                        assert(want@[k as int] == starts@[x]);
                    }
                }
            }
            k = k + 1;
        }
        proof {
            lemma_pairs_map_at(want@);
            assert forall|i: int| 0 <= i < starts@.len() implies planned_starts(
                self@,
                desired@,
                aff,
            ).contains_key(#[trigger] starts@[i].0) && planned_starts(self@, desired@, aff)[starts@[i].0]
                == starts@[i].1 by {
                let y = choose|y: int| 0 <= y < want@.len() && #[trigger] want@[y] == starts@[i];
            }
            assert forall|p: u16| #[trigger] planned_starts(self@, desired@, aff).contains_key(p) implies exists|i: int|
                0 <= i < starts@.len() && starts@[i].0 == p by {
                let y = choose|y: int| 0 <= y < want@.len() && want@[y].0 == p;
                assert(starts@.contains(want@[y]));
                let x = choose|x: int| 0 <= x < starts@.len() && starts@[x] == want@[y];
                assert(starts@[x].0 == p);
            }
            assert forall|a: int, b: int| 0 <= a < drains@.len() && 0 <= b < starts@.len() implies drains@[a] != starts@[b].0 by {
                assert(drains@.contains(drains@[a]));
                assert(drains@.to_set().contains(drains@[a]));
                let y = choose|y: int| 0 <= y < want@.len() && #[trigger] want@[y] == starts@[b];
                assert(m.contains_key(want@[y].0));
            }
        }
        let r = SyncPlan { drains, starts };
        assert forall|p: u16|
            #[trigger] planned_starts(self@, desired@, opt_ports(affected)).contains_key(
                p,
            ) implies exists|i: int| 0 <= i < r.starts@.len() && r.starts@[i].0 == p by {
            let i = choose|i: int| 0 <= i < r.starts@.len() && r.starts@[i].0 == p;
            assert(r.starts@[i].0 == p);
        }
        r
    }
}

impl ListenerTable {
    /// Commits a plan: drains its ports, then reserves its starts. A plan
    /// that fits the table (as one from `plan_sync` on the same table does)
    /// gets a reservation for every start, in order.
    pub fn commit_sync(&mut self, plan: &SyncPlan) -> (r: (Vec<DrainReservation>, Vec<StartReservation>))
        requires
            old(self).wf(),
            plan_fits(old(self)@, plan.drains@, plan.starts@),
        ensures
            final(self).wf(),
            drain_all(old(self)@, plan.drains@).1 == r.0@,
            start_all(drain_all(old(self)@, plan.drains@).0, plan.starts@) == (final(self)@, r.1@),
            r.1@.len() == plan.starts@.len(),
            forall|i: int| 0 <= i < r.1@.len() ==> (#[trigger] r.1@[i]).port == plan.starts@[i].0,
    {
        let ghost t0 = self@;
        let ghost ds = plan.drains@;
        let ghost ss = plan.starts@;
        let mut drained: Vec<DrainReservation> = Vec::new();
        let mut i: usize = 0;
        assert(ds.take(0) =~= Seq::<u16>::empty());
        assert forall|j: int|
            0 <= j < ss.len() implies !self@.shutting_down && !already_serving(
            self@,
            #[trigger] ss[j].0,
            ss[j].1,
        ) by {
            assert(ss[j] == plan.starts@[j]);
        }
        while i < plan.drains.len()
            invariant
                self.wf(),
                ds == plan.drains@,
                ss == plan.starts@,
                i <= ds.len(),
                plan_fits(t0, ds, ss),
                drain_all(t0, ds.take(i as int)) == (self@, drained@),
                forall|j: int|
                    0 <= j < ss.len() ==> !self@.shutting_down && !already_serving(
                        self@,
                        #[trigger] ss[j].0,
                        ss[j].1,
                    ),
            decreases ds.len() - i,
        {
            let port = plan.drains[i];
            let ghost before = self@;
            assert(ds.take(i + 1).drop_last() =~= ds.take(i as int));
            assert(ds.take(i + 1).last() == port);
            let r = self.begin_drain(port);
            match r {
                Some(x) => {
                    drained.push(x);
                },
                None => {},
            }
            proof {
                assert forall|j: int|
                    0 <= j < ss.len() implies !self@.shutting_down && !already_serving(
                    self@,
                    #[trigger] ss[j].0,
                    ss[j].1,
                ) by {
                    assert(ds[i as int] != ss[j].0);
                    assert(!already_serving(before, ss[j].0, ss[j].1));
                }
            }
            i = i + 1;
        }
        assert(ds.take(i as int) =~= ds);
        let ghost t1 = self@;
        let mut started: Vec<StartReservation> = Vec::new();
        let mut k: usize = 0;
        assert(ss.take(0) =~= Seq::<(u16, ListenerKind)>::empty());
        while k < plan.starts.len()
            invariant
                self.wf(),
                ss == plan.starts@,
                k <= ss.len(),
                plan_fits(t0, ds, ss),
                start_all(t1, ss.take(k as int)) == (self@, started@),
                started@.len() == k,
                forall|x: int| 0 <= x < k ==> (#[trigger] started@[x]).port == ss[x].0,
                forall|j: int|
                    k <= j < ss.len() ==> !self@.shutting_down && !already_serving(
                        self@,
                        #[trigger] ss[j].0,
                        ss[j].1,
                    ),
            decreases ss.len() - k,
        {
            let (port, kind) = plan.starts[k];
            let ghost before = self@;
            assert(ss.take(k + 1).drop_last() =~= ss.take(k as int));
            assert(ss.take(k + 1).last() == (port, kind));
            let r = self.begin_start(port, kind);
            match r {
                Some(x) => {
                    started.push(x);
                },
                None => {
                    assert(false);
                },
            }
            proof {
                assert forall|j: int|
                    k + 1 <= j < ss.len() implies !self@.shutting_down && !already_serving(
                    self@,
                    #[trigger] ss[j].0,
                    ss[j].1,
                ) by {
                    assert(ss[k as int].0 != ss[j].0);
                    assert(!already_serving(before, ss[j].0, ss[j].1));
                }
            }
            k = k + 1;
        }
        assert(ss.take(k as int) =~= ss);
        (drained, started)
    }
}

/// Every generation a table hands out is nonzero, and each reservation
/// moves the counter on: a stale generation can never name a newer
/// listener.
pub proof fn law_generations_are_fresh(t: TableV, port: u16, kind: ListenerKind)
    requires
        t.next_generation >= 1,
    ensures
        begin_start_spec(t, port, kind).1 matches Some(r) ==> r.generation == t.next_generation
            && r.generation != 0 && begin_start_spec(t, port, kind).0.next_generation
            == following_generation(r.generation),
        begin_drain_spec(t, port).1 matches Some(r) ==> r.generation == t.next_generation
            && r.generation != 0 && begin_drain_spec(t, port).0.next_generation
            == following_generation(r.generation),
        following_generation(t.next_generation) >= 1,
{
}

/// Once the table shuts down, nothing can start or complete any more.
pub proof fn law_shutdown_fences_starts(t: TableV, port: u16, kind: ListenerKind, g: u64)
    requires
        t.shutting_down,
    ensures
        begin_start_spec(t, port, kind).1 is None,
        begin_start_spec(t, port, kind).0 == t,
        !is_current_start_spec(t, port, g),
{
}

/// A start that was reserved and not disturbed completes, and its listener
/// is then the active one on the port.
pub proof fn law_reserved_start_completes(t: TableV, port: u16, kind: ListenerKind)
    requires
        begin_start_spec(t, port, kind).1 is Some,
    ensures
        ({
            let t1 = begin_start_spec(t, port, kind).0;
            let g = begin_start_spec(t, port, kind).1->Some_0.generation;
            &&& is_current_start_spec(t1, port, g)
            &&& t1.entries[port] == (ListenerEntry { generation: g, kind, state: ListenerState::Starting })
        }),
{
}

/// A completion for any generation but the one now starting on the port
/// changes nothing.
pub proof fn law_stale_completion_is_ignored(t: TableV, port: u16, g: u64)
    requires
        t.entries.contains_key(port),
        t.entries[port].generation != g,
    ensures
        !is_current_start_spec(t, port, g),
        remove_if_current_spec(t, port, g, ListenerState::Starting) == (t, false),
        remove_if_current_spec(t, port, g, ListenerState::Active) == (t, false),
        remove_if_current_spec(t, port, g, ListenerState::Draining) == (t, false),
{
}

/// Rolling back a replacement that still owns the port restores an active,
/// running predecessor exactly as it was.
pub proof fn law_rollback_restores_live_predecessor(
    t: TableV,
    port: u16,
    kind: ListenerKind,
    p: ListenerEntry,
)
    requires
        !t.shutting_down,
        t.entries.contains_key(port),
        t.entries[port] == p,
        p.state == ListenerState::Active,
        p.kind != kind,
    ensures
        ({
            let (t1, r) = begin_start_spec(t, port, kind);
            let res = r->Some_0;
            &&& r is Some
            &&& res.predecessor == Some(p)
            &&& restore_predecessor_spec(t1, port, res.generation, res.predecessor, true).1
            &&& restore_predecessor_spec(t1, port, res.generation, res.predecessor, true).0.entries[port]
                == p
        }),
{
}

} // verus!
