//! The decisions of a control-plane watch connection: who may watch, what
//! an apply response to a sent configuration event means, and what the
//! connection then keeps as acknowledged by its peer.

use vstd::prelude::*;
use vstd::string::StringSliceAdditionalSpecFns;
use crate::ctld::{
    apply_config_operations, apply_operations, first_duplicate, ConfigDelta, ConfigSnapshot,
    ControlRevision, DuplicateKey, SnapshotV,
};
use crate::model::seq_view;
use crate::layer::str_is;
use crate::text::{push_str_chars, string_from_chars};

verus! {

/// `subtle::ConstantTimeEq::ct_eq` on two byte slices, as a `bool`: its
/// source answers 0 when the lengths differ and otherwise compares every
/// byte, so the result is true exactly when the slices are equal.
#[verifier::external_body]
fn ct_bytes_eq(a: &[u8], b: &[u8]) -> (r: bool)
    ensures
        r == (a@ == b@),
{
    subtle::ConstantTimeEq::ct_eq(a, b).into()
}

/// Compares a provided token with the expected one in constant time.
pub fn tokens_equal(provided: &str, expected: &str) -> (r: bool)
    ensures
        r == (provided.spec_bytes() == expected.spec_bytes()),
{
    ct_bytes_eq(provided.as_bytes(), expected.as_bytes())
}

/// A watch request without the right token.
#[derive(Debug, Clone, Copy, PartialEq, Eq, Structural)]
pub struct UnauthorizedWatch;

impl UnauthorizedWatch {
    /// The message the refusal carries.
    pub fn message(&self) -> (r: &'static str)
        ensures
            r@ == "unauthorized watch request"@,
    {
        "unauthorized watch request"
    }
}

/// A watch is authorised when no token is configured, or when the request
/// offers exactly the configured token (no token counting as empty).
pub open spec fn watch_authorized(token: Option<Seq<u8>>, expected: Option<Seq<u8>>) -> bool {
    match expected {
        None => true,
        Some(e) => match token {
            Some(t) => t == e,
            None => e.len() == 0,
        },
    }
}

/// Checks the token of a watch request against the configured one.
pub fn authorize(token: Option<&str>, expected: Option<&str>) -> (r: Result<(), UnauthorizedWatch>)
    ensures
        r is Ok <==> watch_authorized(
            match token {
                Some(t) => Some(t.spec_bytes()),
                None => None,
            },
            match expected {
                Some(e) => Some(e.spec_bytes()),
                None => None,
            },
        ),
{
    match expected {
        None => Ok(()),
        Some(e) => {
            let ok = match token {
                Some(t) => tokens_equal(t, e),
                None => {
                    let empty: Vec<u8> = Vec::new();
                    let bytes = e.as_bytes();
                    let r = ct_bytes_eq(empty.as_slice(), bytes);
                    assert(r == (bytes@.len() == 0)) by {
                        if bytes@.len() == 0 {
                            assert(empty@ =~= bytes@);
                        }
                    }
                    r
                },
            };
            if ok {
                Ok(())
            } else {
                Err(UnauthorizedWatch)
            }
        },
    }
}

/// The status of a peer's answer to a configuration event.
#[derive(Debug, Clone, Copy, PartialEq, Eq, Structural)]
pub enum ApplyStatus {
    Applied,
    Duplicate,
    Rejected,
    ResyncRequired,
}

/// What an apply response means for the watch connection.
#[derive(Debug, Clone, PartialEq, Eq)]
pub enum AckDecision {
    /// The peer asks for a full snapshot.
    Resync,
    /// The peer holds the event's target: it becomes the acknowledged state.
    Accepted,
    /// The response names another revision or hash: the connection fails.
    Mismatch,
    /// The peer refused the configuration: the connection fails with this
    /// message.
    Rejected(String),
}

/// The meaning of a response with `status`, naming `revision` and `hash`
/// (and `reason`), to an event targeting `sent_revision` and `sent_hash`:
/// a resync request first; then a response for another target is a
/// mismatch; then applied or duplicate is accepted, and a refusal carries
/// its reason.
pub open spec fn ack_spec(
    status: ApplyStatus,
    revision: (Seq<char>, u64),
    hash: Seq<char>,
    reason: Option<Seq<char>>,
    sent_revision: (Seq<char>, u64),
    sent_hash: Seq<char>,
) -> (int, Seq<char>) {
    if status == ApplyStatus::ResyncRequired {
        (0, Seq::empty())
    } else if revision != sent_revision || hash != sent_hash {
        (2, Seq::empty())
    } else if status == ApplyStatus::Rejected {
        (
            3,
            "server rejected config: "@ + match reason {
                Some(r) => r,
                None => "unspecified"@,
            },
        )
    } else {
        (1, Seq::empty())
    }
}

/// An acknowledgement decision by its contents.
pub open spec fn ack_view(d: AckDecision) -> (int, Seq<char>) {
    match d {
        AckDecision::Resync => (0, Seq::empty()),
        AckDecision::Accepted => (1, Seq::empty()),
        AckDecision::Mismatch => (2, Seq::empty()),
        AckDecision::Rejected(m) => (3, m@),
    }
}

/// Decides what an apply response means.
pub fn ack_decision(
    status: ApplyStatus,
    revision: &ControlRevision,
    hash: &str,
    reason: Option<&str>,
    sent_revision: &ControlRevision,
    sent_hash: &str,
) -> (r: AckDecision)
    ensures
        ack_view(r) == ack_spec(
            status,
            (revision.epoch@, revision.sequence),
            hash@,
            match reason {
                Some(x) => Some(x@),
                None => None,
            },
            (sent_revision.epoch@, sent_revision.sequence),
            sent_hash@,
        ),
{
    if status == ApplyStatus::ResyncRequired {
        return AckDecision::Resync;
    }
    if !str_is(revision.epoch.as_str(), sent_revision.epoch.as_str()) || revision.sequence
        != sent_revision.sequence || !str_is(hash, sent_hash) {
        return AckDecision::Mismatch;
    }
    if status == ApplyStatus::Rejected {
        let mut out: Vec<char> = Vec::new();
        push_str_chars(&mut out, "server rejected config: ");
        match reason {
            Some(x) => push_str_chars(&mut out, x),
            None => push_str_chars(&mut out, "unspecified"),
        }
        return AckDecision::Rejected(string_from_chars(out.as_slice()));
    }
    AckDecision::Accepted
}

/// What a watch connection sends after the configuration changed.
#[derive(Debug, Clone, Copy, PartialEq, Eq, Structural)]
pub enum WatchSend {
    /// The content is what the peer last acknowledged: nothing.
    Nothing,
    /// The operations from the acknowledged content to the current one.
    Delta,
    /// The whole current snapshot.
    Snapshot,
}

/// Chooses what to send when the current content hash is `current_hash`
/// and the peer last acknowledged `last_acked_hash`: nothing for the same
/// content, else the delta when it is smaller on the wire than the
/// snapshot, else the snapshot.
pub fn choose_watch_event(
    last_acked_hash: &str,
    current_hash: &str,
    delta_wire_size: usize,
    snapshot_wire_size: usize,
) -> (r: WatchSend)
    ensures
        r == if last_acked_hash@ == current_hash@ {
            WatchSend::Nothing
        } else if delta_wire_size < snapshot_wire_size {
            WatchSend::Delta
        } else {
            WatchSend::Snapshot
        },
{
    if str_is(last_acked_hash, current_hash) {
        WatchSend::Nothing
    } else if delta_wire_size < snapshot_wire_size {
        WatchSend::Delta
    } else {
        WatchSend::Snapshot
    }
}

/// What a watch connection holds as acknowledged by its peer: the
/// snapshot, its revision and its content hash.
pub struct WatchAckState {
    pub last_acked_snapshot: ConfigSnapshot,
    pub last_acked_revision: ControlRevision,
    pub last_acked_hash: String,
}

/// An acknowledged state by its contents.
pub open spec fn ack_state_view(s: WatchAckState) -> (SnapshotV, (Seq<char>, u64), Seq<char>) {
    (
        s.last_acked_snapshot@,
        (s.last_acked_revision.epoch@, s.last_acked_revision.sequence),
        s.last_acked_hash@,
    )
}

fn copy_revision(r: &ControlRevision) -> (c: ControlRevision)
    ensures
        c.epoch@ == r.epoch@,
        c.sequence == r.sequence,
{
    ControlRevision { epoch: r.epoch.clone(), sequence: r.sequence }
}

/// The snapshot a delta leads to from the acknowledged `base`: its
/// operations applied as one batch, at the delta's target version.
pub fn delta_candidate(base: &ConfigSnapshot, delta: &ConfigDelta) -> (r: Result<
    ConfigSnapshot,
    DuplicateKey,
>)
    ensures
        match r {
            Ok(c) => c@ == (SnapshotV {
                resource_version: delta.target_revision.sequence,
                ..apply_operations(base@, seq_view(delta.operations@))
            }),
            Err(e) => first_duplicate(apply_operations(base@, seq_view(delta.operations@)))
                == Some(e),
        },
{
    let mut candidate = base.duplicate();
    match apply_config_operations(&mut candidate, delta.operations.as_slice()) {
        Ok(()) => {
            candidate.resource_version = delta.target_revision.sequence;
            Ok(candidate)
        },
        Err(e) => Err(e),
    }
}

/// The delta's operations did not lead to its target content.
#[derive(Debug, Clone, Copy, PartialEq, Eq, Structural)]
pub struct DeltaHashMismatch;

impl DeltaHashMismatch {
    /// The message the connection fails with.
    pub fn message(&self) -> (r: &'static str)
        ensures
            r@ == "generated delta target hash does not match the target snapshot"@,
    {
        "generated delta target hash does not match the target snapshot"
    }
}

/// After the peer accepted `delta`: when the candidate built from it
/// (`delta_candidate`) hashes to the delta's target hash, `target` becomes
/// the acknowledged snapshot under the delta's target revision and hash;
/// otherwise the connection fails and the state stays as it was.
pub fn accept_delta(
    state: &mut WatchAckState,
    delta: &ConfigDelta,
    candidate_hash: &str,
    target: ConfigSnapshot,
) -> (r: Result<(), DeltaHashMismatch>)
    ensures
        candidate_hash@ == delta.target_hash@ ==> r is Ok && ack_state_view(*final(state)) == (
            target@,
            (delta.target_revision.epoch@, delta.target_revision.sequence),
            delta.target_hash@,
        ),
        candidate_hash@ != delta.target_hash@ ==> r == Err::<(), DeltaHashMismatch>(
            DeltaHashMismatch,
        ) && ack_state_view(*final(state)) == ack_state_view(*old(state)),
{
    if !str_is(candidate_hash, delta.target_hash.as_str()) {
        return Err(DeltaHashMismatch);
    }
    state.last_acked_snapshot = target;
    state.last_acked_revision = copy_revision(&delta.target_revision);
    state.last_acked_hash = delta.target_hash.clone();
    Ok(())
}

/// After the peer accepted a full snapshot sent under `revision` and
/// `hash`: `target` becomes the acknowledged snapshot.
pub fn accept_snapshot(
    state: &mut WatchAckState,
    revision: &ControlRevision,
    hash: &str,
    target: ConfigSnapshot,
)
    ensures
        ack_state_view(*final(state)) == (target@, (revision.epoch@, revision.sequence), hash@),
{
    state.last_acked_snapshot = target;
    state.last_acked_revision = copy_revision(revision);
    state.last_acked_hash = hash.to_owned();
}

} // verus!
