//! Control-plane protocol: configuration snapshots, the operations that edit
//! them, revisions and events, and the rules a snapshot must follow.

use vstd::prelude::*;
use crate::model::{
    Keyed, SameView, seq_view, vec_duplicate, ClientGroupDef, ClientGroupV, EgressUpstreamDef,
    EgressUpstreamV, EgressVhostRuleDef, EgressVhostRuleV, IngressListenerDef, IngressListenerV,
    TokenCacheEntryDef, TokenCacheEntryV,
};
use crate::collection::{
    keys_unique, upsert_spec, delete_spec, upsert_by_key, delete_by_key, keys_are_unique,
};

verus! {

/// The version of the control protocol spoken on the wire.
pub const CURRENT_CONTROL_PROTOCOL_VERSION: u16 = 3;

/// One edit of a configuration snapshot.
#[derive(Clone, Debug, PartialEq, Eq)]
pub enum ConfigOperation {
    UpsertIngressListener(IngressListenerDef),
    DeleteIngressListener { port: u16 },
    UpsertClientGroup(ClientGroupDef),
    DeleteClientGroup { group_id: String },
    UpsertEgressUpstream(EgressUpstreamDef),
    DeleteEgressUpstream { name: String },
    UpsertEgressVhostRule(EgressVhostRuleDef),
    DeleteEgressVhostRule { match_host: String },
    UpsertToken(TokenCacheEntryDef),
    DeleteToken { hash_hex: String },
}

pub enum OperationV {
    UpsertIngressListener(IngressListenerV),
    DeleteIngressListener(u16),
    UpsertClientGroup(ClientGroupV),
    DeleteClientGroup(Seq<char>),
    UpsertEgressUpstream(EgressUpstreamV),
    DeleteEgressUpstream(Seq<char>),
    UpsertEgressVhostRule(EgressVhostRuleV),
    DeleteEgressVhostRule(Seq<char>),
    UpsertToken(TokenCacheEntryV),
    DeleteToken(Seq<char>),
}

impl View for ConfigOperation {
    type V = OperationV;

    open spec fn view(&self) -> OperationV {
        match self {
            ConfigOperation::UpsertIngressListener(i) => OperationV::UpsertIngressListener(i@),
            ConfigOperation::DeleteIngressListener { port } => OperationV::DeleteIngressListener(
                *port,
            ),
            ConfigOperation::UpsertClientGroup(i) => OperationV::UpsertClientGroup(i@),
            ConfigOperation::DeleteClientGroup { group_id } => OperationV::DeleteClientGroup(
                group_id@,
            ),
            ConfigOperation::UpsertEgressUpstream(i) => OperationV::UpsertEgressUpstream(i@),
            ConfigOperation::DeleteEgressUpstream { name } => OperationV::DeleteEgressUpstream(
                name@,
            ),
            ConfigOperation::UpsertEgressVhostRule(i) => OperationV::UpsertEgressVhostRule(i@),
            ConfigOperation::DeleteEgressVhostRule { match_host } =>
                OperationV::DeleteEgressVhostRule(match_host@),
            ConfigOperation::UpsertToken(i) => OperationV::UpsertToken(i@),
            ConfigOperation::DeleteToken { hash_hex } => OperationV::DeleteToken(hash_hex@),
        }
    }
}

/// The full routing configuration the control plane distributes.
#[derive(Clone, Debug, PartialEq, Eq)]
pub struct ConfigSnapshot {
    pub resource_version: u64,
    pub ingress_listeners: Vec<IngressListenerDef>,
    pub client_groups: Vec<ClientGroupDef>,
    pub egress_upstreams: Vec<EgressUpstreamDef>,
    pub egress_vhost_rules: Vec<EgressVhostRuleDef>,
    pub token_cache: Vec<TokenCacheEntryDef>,
}

pub struct SnapshotV {
    pub resource_version: u64,
    pub ingress_listeners: Seq<IngressListenerV>,
    pub client_groups: Seq<ClientGroupV>,
    pub egress_upstreams: Seq<EgressUpstreamV>,
    pub egress_vhost_rules: Seq<EgressVhostRuleV>,
    pub token_cache: Seq<TokenCacheEntryV>,
}

impl View for ConfigSnapshot {
    type V = SnapshotV;

    open spec fn view(&self) -> SnapshotV {
        SnapshotV {
            resource_version: self.resource_version,
            ingress_listeners: seq_view(self.ingress_listeners@),
            client_groups: seq_view(self.client_groups@),
            egress_upstreams: seq_view(self.egress_upstreams@),
            egress_vhost_rules: seq_view(self.egress_vhost_rules@),
            token_cache: seq_view(self.token_cache@),
        }
    }
}

impl ConfigSnapshot {
    /// A snapshot with no records.
    pub fn empty(resource_version: u64) -> (r: Self)
        ensures
            r@.resource_version == resource_version,
            r@.ingress_listeners.len() == 0,
            r@.client_groups.len() == 0,
            r@.egress_upstreams.len() == 0,
            r@.egress_vhost_rules.len() == 0,
            r@.token_cache.len() == 0,
    {
        ConfigSnapshot {
            resource_version,
            ingress_listeners: Vec::new(),
            client_groups: Vec::new(),
            egress_upstreams: Vec::new(),
            egress_vhost_rules: Vec::new(),
            token_cache: Vec::new(),
        }
    }

    /// A copy of the snapshot.
    pub fn duplicate(&self) -> (r: Self)
        ensures
            r@ == self@,
    {
        ConfigSnapshot {
            resource_version: self.resource_version,
            ingress_listeners: vec_duplicate(&self.ingress_listeners),
            client_groups: vec_duplicate(&self.client_groups),
            egress_upstreams: vec_duplicate(&self.egress_upstreams),
            egress_vhost_rules: vec_duplicate(&self.egress_vhost_rules),
            token_cache: vec_duplicate(&self.token_cache),
        }
    }
}

/// The effect of one operation on a snapshot (before validation).
pub open spec fn apply_operation(s: SnapshotV, op: OperationV) -> SnapshotV {
    match op {
        OperationV::UpsertIngressListener(i) => SnapshotV {
            ingress_listeners: upsert_spec::<IngressListenerDef>(s.ingress_listeners, i),
            ..s
        },
        OperationV::DeleteIngressListener(p) => SnapshotV {
            ingress_listeners: delete_spec::<IngressListenerDef>(s.ingress_listeners, p),
            ..s
        },
        OperationV::UpsertClientGroup(i) => SnapshotV {
            client_groups: upsert_spec::<ClientGroupDef>(s.client_groups, i),
            ..s
        },
        OperationV::DeleteClientGroup(k) => SnapshotV {
            client_groups: delete_spec::<ClientGroupDef>(s.client_groups, k),
            ..s
        },
        OperationV::UpsertEgressUpstream(i) => SnapshotV {
            egress_upstreams: upsert_spec::<EgressUpstreamDef>(s.egress_upstreams, i),
            ..s
        },
        OperationV::DeleteEgressUpstream(k) => SnapshotV {
            egress_upstreams: delete_spec::<EgressUpstreamDef>(s.egress_upstreams, k),
            ..s
        },
        OperationV::UpsertEgressVhostRule(i) => SnapshotV {
            egress_vhost_rules: upsert_spec::<EgressVhostRuleDef>(s.egress_vhost_rules, i),
            ..s
        },
        OperationV::DeleteEgressVhostRule(k) => SnapshotV {
            egress_vhost_rules: delete_spec::<EgressVhostRuleDef>(s.egress_vhost_rules, k),
            ..s
        },
        OperationV::UpsertToken(i) => SnapshotV {
            token_cache: upsert_spec::<TokenCacheEntryDef>(s.token_cache, i),
            ..s
        },
        OperationV::DeleteToken(k) => SnapshotV {
            token_cache: delete_spec::<TokenCacheEntryDef>(s.token_cache, k),
            ..s
        },
    }
}

/// The effect of a batch of operations, applied in order.
pub open spec fn apply_operations(s: SnapshotV, ops: Seq<OperationV>) -> SnapshotV
    decreases ops.len(),
{
    if ops.len() == 0 {
        s
    } else {
        apply_operation(apply_operations(s, ops.drop_last()), ops.last())
    }
}

/// Why a snapshot is refused: the first collection holding a duplicate key.
#[derive(Clone, Copy, Debug, PartialEq, Eq, Structural)]
pub enum DuplicateKey {
    IngressPort,
    ClientGroup,
    EgressUpstream,
    EgressVhost,
    TokenHash,
}

impl DuplicateKey {
    /// The message the error carries.
    pub fn message(&self) -> (r: &'static str)
        ensures
            r@ == match self {
                DuplicateKey::IngressPort => "duplicate ingress port"@,
                DuplicateKey::ClientGroup => "duplicate client group"@,
                DuplicateKey::EgressUpstream => "duplicate egress upstream"@,
                DuplicateKey::EgressVhost => "duplicate egress vhost"@,
                DuplicateKey::TokenHash => "duplicate token hash"@,
            },
    {
        match self {
            DuplicateKey::IngressPort => "duplicate ingress port",
            DuplicateKey::ClientGroup => "duplicate client group",
            DuplicateKey::EgressUpstream => "duplicate egress upstream",
            DuplicateKey::EgressVhost => "duplicate egress vhost",
            DuplicateKey::TokenHash => "duplicate token hash",
        }
    }
}

/// The first collection of `s` (in the order ingress ports, client groups,
/// egress upstreams, egress vhosts, token hashes) with a duplicate key.
pub open spec fn first_duplicate(s: SnapshotV) -> Option<DuplicateKey> {
    if !keys_unique::<IngressListenerDef>(s.ingress_listeners) {
        Some(DuplicateKey::IngressPort)
    } else if !keys_unique::<ClientGroupDef>(s.client_groups) {
        Some(DuplicateKey::ClientGroup)
    } else if !keys_unique::<EgressUpstreamDef>(s.egress_upstreams) {
        Some(DuplicateKey::EgressUpstream)
    } else if !keys_unique::<EgressVhostRuleDef>(s.egress_vhost_rules) {
        Some(DuplicateKey::EgressVhost)
    } else if !keys_unique::<TokenCacheEntryDef>(s.token_cache) {
        Some(DuplicateKey::TokenHash)
    } else {
        None
    }
}

/// Every collection of the snapshot has distinct keys.
pub open spec fn snapshot_keys_unique(s: SnapshotV) -> bool {
    first_duplicate(s) is None
}

/// Checks that every collection of the snapshot has distinct keys.
pub fn validate_snapshot(snapshot: &ConfigSnapshot) -> (r: Result<(), DuplicateKey>)
    ensures
        match r {
            Ok(()) => first_duplicate(snapshot@) is None,
            Err(e) => first_duplicate(snapshot@) == Some(e),
        },
{
    if !keys_are_unique(&snapshot.ingress_listeners) {
        return Err(DuplicateKey::IngressPort);
    }
    if !keys_are_unique(&snapshot.client_groups) {
        return Err(DuplicateKey::ClientGroup);
    }
    if !keys_are_unique(&snapshot.egress_upstreams) {
        return Err(DuplicateKey::EgressUpstream);
    }
    if !keys_are_unique(&snapshot.egress_vhost_rules) {
        return Err(DuplicateKey::EgressVhost);
    }
    if !keys_are_unique(&snapshot.token_cache) {
        return Err(DuplicateKey::TokenHash);
    }
    Ok(())
}

fn apply_one(snapshot: &mut ConfigSnapshot, operation: &ConfigOperation)
    ensures
        final(snapshot)@ == apply_operation(old(snapshot)@, operation@),
{
    match operation {
        ConfigOperation::UpsertIngressListener(item) => {
            upsert_by_key(&mut snapshot.ingress_listeners, item.duplicate());
        },
        ConfigOperation::DeleteIngressListener { port } => {
            delete_by_key::<IngressListenerDef>(&mut snapshot.ingress_listeners, port);
        },
        ConfigOperation::UpsertClientGroup(item) => {
            upsert_by_key(&mut snapshot.client_groups, item.duplicate());
        },
        ConfigOperation::DeleteClientGroup { group_id } => {
            delete_by_key::<ClientGroupDef>(&mut snapshot.client_groups, group_id);
        },
        ConfigOperation::UpsertEgressUpstream(item) => {
            upsert_by_key(&mut snapshot.egress_upstreams, item.duplicate());
        },
        ConfigOperation::DeleteEgressUpstream { name } => {
            delete_by_key::<EgressUpstreamDef>(&mut snapshot.egress_upstreams, name);
        },
        ConfigOperation::UpsertEgressVhostRule(item) => {
            upsert_by_key(&mut snapshot.egress_vhost_rules, item.duplicate());
        },
        ConfigOperation::DeleteEgressVhostRule { match_host } => {
            delete_by_key::<EgressVhostRuleDef>(&mut snapshot.egress_vhost_rules, match_host);
        },
        ConfigOperation::UpsertToken(item) => {
            upsert_by_key(&mut snapshot.token_cache, item.duplicate());
        },
        ConfigOperation::DeleteToken { hash_hex } => {
            delete_by_key::<TokenCacheEntryDef>(&mut snapshot.token_cache, hash_hex);
        },
    }
}

/// Applies the operations in order and validates the result.
fn apply_config_operations_in_place(
    snapshot: &mut ConfigSnapshot,
    operations: &[ConfigOperation],
) -> (r: Result<(), DuplicateKey>)
    ensures
        final(snapshot)@ == apply_operations(old(snapshot)@, seq_view(operations@)),
        match r {
            Ok(()) => first_duplicate(final(snapshot)@) is None,
            Err(e) => first_duplicate(final(snapshot)@) == Some(e),
        },
{
    let ghost start = snapshot@;
    let ghost ops = seq_view(operations@);
    let mut i: usize = 0;
    assert(ops.take(0) =~= Seq::<OperationV>::empty());
    while i < operations.len()
        invariant
            i <= operations@.len(),
            ops == seq_view(operations@),
            snapshot@ == apply_operations(start, ops.take(i as int)),
        decreases operations@.len() - i,
    {
        apply_one(snapshot, &operations[i]);
        assert(ops.take(i + 1).drop_last() =~= ops.take(i as int));
        assert(ops.take(i + 1).last() == operations@[i as int]@);
        i = i + 1;
    }
    assert(ops.take(i as int) =~= ops);
    validate_snapshot(snapshot)
}

/// Applies a batch of operations atomically: the snapshot is changed only
/// when every collection of the result has distinct keys.
pub fn apply_config_operations(snapshot: &mut ConfigSnapshot, operations: &[ConfigOperation]) -> (r:
    Result<(), DuplicateKey>)
    ensures
        match r {
            Ok(()) => {
                &&& final(snapshot)@ == apply_operations(old(snapshot)@, seq_view(operations@))
                &&& snapshot_keys_unique(final(snapshot)@)
            },
            Err(e) => {
                &&& final(snapshot)@ == old(snapshot)@
                &&& first_duplicate(apply_operations(old(snapshot)@, seq_view(operations@)))
                    == Some(e)
            },
        },
{
    let mut candidate = snapshot.duplicate();
    apply_config_operations_in_place(&mut candidate, operations)?;
    *snapshot = candidate;
    Ok(())
}

/// A revision of the configuration: an epoch and a sequence number in it.
#[derive(Clone, Debug, PartialEq, Eq)]
pub struct ControlRevision {
    pub epoch: String,
    pub sequence: u64,
}

/// A snapshot together with the revision and content hash it was published
/// under.
#[derive(Clone, Debug, PartialEq, Eq)]
pub struct VersionedConfigSnapshot {
    pub revision: ControlRevision,
    pub content_hash: String,
    pub generated_at_unix_ms: u64,
    pub snapshot: ConfigSnapshot,
}

/// The operations that move a subscriber from one revision to another.
#[derive(Clone, Debug, PartialEq, Eq)]
pub struct ConfigDelta {
    pub base_revision: ControlRevision,
    pub base_hash: String,
    pub target_revision: ControlRevision,
    pub target_hash: String,
    pub operations: Vec<ConfigOperation>,
}

/// What the control plane pushes to a subscriber.
#[derive(Clone, Debug, PartialEq, Eq)]
pub enum ConfigEvent {
    Snapshot(VersionedConfigSnapshot),
    Delta(ConfigDelta),
}

/// A subscriber's request to watch the configuration.
#[derive(Clone, Debug, PartialEq, Eq)]
pub struct WatchRequest {
    pub token: Option<String>,
    pub last_applied_revision: Option<ControlRevision>,
    pub last_applied_hash: Option<String>,
}

/// How a subscriber handled an event.
#[derive(Clone, Copy, Debug, PartialEq, Eq, Structural)]
pub enum ApplyStatus {
    Applied,
    Duplicate,
    Rejected,
    ResyncRequired,
}

/// A subscriber's answer to an event.
#[derive(Clone, Debug, PartialEq, Eq)]
pub struct ApplyResponse {
    pub revision: ControlRevision,
    pub content_hash: String,
    pub status: ApplyStatus,
    pub reason: Option<String>,
}

} // verus!
