//! Control revisions: the sequence advances exactly when a snapshot with
//! new content is committed, within one epoch; and the record of which
//! configuration inputs are degraded.

use vstd::prelude::*;
use crate::ctld::ControlRevision;
use crate::layer::str_is;

verus! {

/// A revision store that lives as long as the process.
pub struct EphemeralControlRevisionStore {
    epoch: String,
    sequence: u64,
    content_hash: Option<String>,
}

/// The state of a revision store: its epoch, its sequence and the content
/// hash last committed.
pub struct RevisionStateV {
    pub epoch: Seq<char>,
    pub sequence: u64,
    pub content_hash: Option<Seq<char>>,
}

impl View for EphemeralControlRevisionStore {
    type V = RevisionStateV;

    closed spec fn view(&self) -> RevisionStateV {
        RevisionStateV {
            epoch: self.epoch@,
            sequence: self.sequence,
            content_hash: match self.content_hash {
                Some(h) => Some(h@),
                None => None,
            },
        }
    }
}

/// The sequence a commit of `hash` leads to: unchanged for the first commit
/// and for the hash already committed, one more (modulo 2^64) otherwise.
pub open spec fn next_sequence(s: RevisionStateV, hash: Seq<char>) -> u64 {
    match s.content_hash {
        None => s.sequence,
        Some(h) => if h == hash {
            s.sequence
        } else {
            s.sequence.wrapping_add(1)
        },
    }
}

impl EphemeralControlRevisionStore {
    /// A store in epoch `ephemeral` at sequence 1 with nothing committed.
    pub fn new() -> (r: Self)
        ensures
            r@.epoch == "ephemeral"@,
            r@.sequence == 1,
            r@.content_hash is None,
    {
        EphemeralControlRevisionStore {
            epoch: "ephemeral".to_owned(),
            sequence: 1,
            content_hash: None,
        }
    }

    /// The current revision.
    pub fn current(&self) -> (r: ControlRevision)
        ensures
            r.epoch@ == self@.epoch,
            r.sequence == self@.sequence,
    {
        ControlRevision { epoch: self.epoch.clone(), sequence: self.sequence }
    }

    /// Commits a snapshot with `content_hash` and returns the revision it is
    /// published under.
    pub fn commit_snapshot_hash(&mut self, content_hash: &str) -> (r: ControlRevision)
        ensures
            final(self)@.epoch == old(self)@.epoch,
            final(self)@.sequence == next_sequence(old(self)@, content_hash@),
            final(self)@.content_hash == Some(content_hash@),
            r.epoch@ == old(self)@.epoch,
            r.sequence == next_sequence(old(self)@, content_hash@),
    {
        let hash = content_hash.to_owned();
        let sequence = match &self.content_hash {
            None => self.sequence,
            Some(h) => if *h == hash {
                self.sequence
            } else {
                self.sequence.wrapping_add(1)
            },
        };
        self.sequence = sequence;
        self.content_hash = Some(hash);
        ControlRevision { epoch: self.epoch.clone(), sequence }
    }
}

/// The durable revision row: like the in-memory store, and a commit may
/// name the epoch it expects, so that a commit that raced a change of epoch
/// is refused and changes nothing.
pub struct ControlRevisionRow {
    epoch: String,
    sequence: u64,
    content_hash: Option<String>,
}

impl View for ControlRevisionRow {
    type V = RevisionStateV;

    closed spec fn view(&self) -> RevisionStateV {
        RevisionStateV {
            epoch: self.epoch@,
            sequence: self.sequence,
            content_hash: match self.content_hash {
                Some(h) => Some(h@),
                None => None,
            },
        }
    }
}

/// The message a commit refused for a changed epoch fails with.
pub open spec fn epoch_changed_message() -> Seq<char> {
    "control revision epoch changed while committing snapshot"@
}

impl ControlRevisionRow {
    /// The row of a fresh store: epoch `epoch`, sequence 1, nothing
    /// committed.
    pub fn new(epoch: &str) -> (r: Self)
        ensures
            r@.epoch == epoch@,
            r@.sequence == 1,
            r@.content_hash is None,
    {
        ControlRevisionRow { epoch: epoch.to_owned(), sequence: 1, content_hash: None }
    }

    /// The current revision.
    pub fn current(&self) -> (r: ControlRevision)
        ensures
            r.epoch@ == self@.epoch,
            r.sequence == self@.sequence,
    {
        ControlRevision { epoch: self.epoch.clone(), sequence: self.sequence }
    }

    /// Commits a snapshot with `content_hash`, in `expected_epoch` when one
    /// is named, and returns the revision it is published under.
    pub fn commit_snapshot_hash(&mut self, content_hash: &str, expected_epoch: Option<&str>) -> (r:
        Result<ControlRevision, String>)
        ensures
            match expected_epoch {
                Some(e) => e@ != old(self)@.epoch,
                None => false,
            } ==> {
                &&& r is Err
                &&& r->Err_0@ == epoch_changed_message()
                &&& final(self)@ == old(self)@
            },
            !match expected_epoch {
                Some(e) => e@ != old(self)@.epoch,
                None => false,
            } ==> {
                &&& final(self)@.epoch == old(self)@.epoch
                &&& final(self)@.sequence == next_sequence(old(self)@, content_hash@)
                &&& final(self)@.content_hash == Some(content_hash@)
                &&& r is Ok
                &&& r->Ok_0.epoch@ == old(self)@.epoch
                &&& r->Ok_0.sequence == next_sequence(old(self)@, content_hash@)
            },
    {
        if let Some(e) = expected_epoch {
            if !str_is(self.epoch.as_str(), e) {
                return Err("control revision epoch changed while committing snapshot".to_owned());
            }
        }
        let hash = content_hash.to_owned();
        let sequence = match &self.content_hash {
            None => self.sequence,
            Some(h) => if *h == hash {
                self.sequence
            } else {
                self.sequence.wrapping_add(1)
            },
        };
        self.sequence = sequence;
        self.content_hash = Some(hash);
        Ok(ControlRevision { epoch: self.epoch.clone(), sequence })
    }
}

/// Whether a snapshot committed under `revision` is installed by a service
/// of epoch `epoch` now at version `current`: an epoch that changed under
/// the service is an error; the version already installed is skipped.
pub fn publish_decision(epoch: &str, current: u64, revision: &ControlRevision) -> (r: Result<
    bool,
    String,
>)
    ensures
        revision.epoch@ != epoch@ ==> r is Err && r->Err_0@
            == "control revision epoch changed while service was running"@,
        revision.epoch@ == epoch@ ==> r == Ok::<bool, String>(revision.sequence != current),
{
    if !str_is(revision.epoch.as_str(), epoch) {
        return Err("control revision epoch changed while service was running".to_owned());
    }
    Ok(revision.sequence != current)
}

/// How long, in seconds, a failed publish waits before the next one after
/// `failures` failures in a row: doubling from two seconds, at most 32.
pub fn publish_backoff_secs(failures: u32) -> (r: u64)
    ensures
        r == if failures >= 5 {
            32u64
        } else if failures == 4 {
            16
        } else if failures == 3 {
            8
        } else if failures == 2 {
            4
        } else if failures == 1 {
            2
        } else {
            1
        },
{
    let e = if failures < 5 {
        failures
    } else {
        5
    };
    let mut r: u64 = 1;
    let mut i: u32 = 0;
    while i < e
        invariant
            i <= e <= 5,
            e == (if failures < 5 {
                failures
            } else {
                5
            }),
            r == if i == 0 {
                1u64
            } else if i == 1 {
                2
            } else if i == 2 {
                4
            } else if i == 3 {
                8
            } else if i == 4 {
                16
            } else {
                32
            },
        decreases e - i,
    {
        r = r * 2;
        i = i + 1;
    }
    r
}

/// The configuration inputs that can be degraded.
#[derive(Debug, Clone, Copy, PartialEq, Eq, Structural)]
pub enum DegradedSource {
    Yaml,
    Sqlite,
    Coordinator,
}

/// Which inputs are degraded, and the overall flag kept beside them.
#[derive(Debug, Clone, Copy, PartialEq, Eq)]
pub struct DegradedState {
    yaml: bool,
    sqlite: bool,
    coordinator: bool,
    degraded: bool,
}

impl View for DegradedState {
    type V = (bool, bool, bool, bool);

    closed spec fn view(&self) -> (bool, bool, bool, bool) {
        (self.yaml, self.sqlite, self.coordinator, self.degraded)
    }
}

/// The flag of `source` in a degraded state.
pub open spec fn flag_of(v: (bool, bool, bool, bool), source: DegradedSource) -> bool {
    match source {
        DegradedSource::Yaml => v.0,
        DegradedSource::Sqlite => v.1,
        DegradedSource::Coordinator => v.2,
    }
}

/// The overall flag says whether any input is degraded.
pub open spec fn degraded_wf(v: (bool, bool, bool, bool)) -> bool {
    v.3 == (v.0 || v.1 || v.2)
}

impl DegradedState {
    /// Nothing degraded.
    pub fn new() -> (r: Self)
        ensures
            r@ == (false, false, false, false),
    {
        DegradedState { yaml: false, sqlite: false, coordinator: false, degraded: false }
    }

    /// Whether any input is degraded.
    pub fn is_degraded(&self) -> (r: bool)
        ensures
            r == self@.3,
    {
        self.degraded
    }

    /// Whether `source` is degraded.
    pub fn source_degraded(&self, source: DegradedSource) -> (r: bool)
        ensures
            r == flag_of(self@, source),
    {
        match source {
            DegradedSource::Yaml => self.yaml,
            DegradedSource::Sqlite => self.sqlite,
            DegradedSource::Coordinator => self.coordinator,
        }
    }

    fn recompute(&mut self)
        ensures
            final(self)@.0 == old(self)@.0,
            final(self)@.1 == old(self)@.1,
            final(self)@.2 == old(self)@.2,
            degraded_wf(final(self)@),
    {
        self.degraded = self.yaml || self.sqlite || self.coordinator;
    }

    /// Marks `source` degraded or not; the other inputs keep their flags and
    /// the overall flag follows.
    pub fn set_source_degraded(&mut self, source: DegradedSource, degraded: bool)
        ensures
            flag_of(final(self)@, source) == degraded,
            forall|o: DegradedSource| o != source ==> flag_of(final(self)@, o) == flag_of(
                old(self)@,
                o,
            ),
            degraded_wf(final(self)@),
    {
        match source {
            DegradedSource::Yaml => self.yaml = degraded,
            DegradedSource::Sqlite => self.sqlite = degraded,
            DegradedSource::Coordinator => self.coordinator = degraded,
        }
        self.recompute();
    }

    /// A configuration from `source` was committed: that input is no longer
    /// degraded, the others keep their flags.
    pub fn source_committed(&mut self, source: DegradedSource)
        requires
            source != DegradedSource::Coordinator,
        ensures
            !flag_of(final(self)@, source),
            forall|o: DegradedSource| o != source ==> flag_of(final(self)@, o) == flag_of(
                old(self)@,
                o,
            ),
            degraded_wf(final(self)@),
    {
        self.set_source_degraded(source, false);
    }
}

/// Committing the content already committed does not advance the revision.
pub proof fn law_same_content_keeps_revision(s: RevisionStateV, hash: Seq<char>)
    requires
        s.content_hash == Some(hash),
    ensures
        next_sequence(s, hash) == s.sequence,
{
}

/// Committing new content advances the revision by one (modulo 2^64).
pub proof fn law_new_content_advances_revision(s: RevisionStateV, hash: Seq<char>)
    requires
        s.content_hash is Some,
        s.content_hash != Some(hash),
    ensures
        next_sequence(s, hash) == s.sequence.wrapping_add(1),
{
}

} // verus!
