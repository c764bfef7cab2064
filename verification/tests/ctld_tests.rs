use duotunnel::canonical::canonical_snapshot;
use duotunnel::ctld::{apply_config_operations, ConfigOperation, ConfigSnapshot, DuplicateKey};
use duotunnel::diff::diff_snapshots;
use duotunnel::model::{
    ClientGroupDef, ClientStatus, ClientUpstreamDef, EgressUpstreamDef, EgressVhostRuleDef,
    IngressListenerDef, IngressListenerModeDef, IngressVhostRuleDef, TokenCacheEntryDef,
    TokenStatus, UpstreamServerDef,
};
use duotunnel::snapshot_check::{validate_config_snapshot, SnapshotError};

fn empty_snapshot(resource_version: u64) -> ConfigSnapshot {
    ConfigSnapshot {
        resource_version,
        ingress_listeners: Vec::new(),
        client_groups: Vec::new(),
        egress_upstreams: Vec::new(),
        egress_vhost_rules: Vec::new(),
        token_cache: Vec::new(),
    }
}

fn upstream(name: &str, policy: &str) -> EgressUpstreamDef {
    EgressUpstreamDef { name: name.into(), lb_policy: policy.into(), servers: vec![] }
}

fn group(id: &str) -> ClientGroupDef {
    ClientGroupDef { group_id: id.into(), config_version: "v1".into(), upstreams: vec![] }
}

#[test]
fn operations_are_applied_as_one_validated_batch() {
    let mut snapshot = empty_snapshot(1);
    apply_config_operations(
        &mut snapshot,
        &[ConfigOperation::UpsertEgressUpstream(upstream("api", "round_robin"))],
    )
    .unwrap();
    assert_eq!(snapshot.egress_upstreams[0].name, "api");
}

#[test]
fn invalid_operation_batch_does_not_mutate_input() {
    let mut snapshot = empty_snapshot(1);
    snapshot.egress_upstreams = vec![upstream("api", "round_robin"), upstream("api", "least_conn")];
    let original = snapshot.clone();
    let result = apply_config_operations(
        &mut snapshot,
        &[ConfigOperation::DeleteEgressUpstream { name: "missing".into() }],
    );
    assert!(result.is_err());
    assert_eq!(snapshot, original);
}

#[test]
fn duplicate_key_error_names_first_offending_collection() {
    let mut snapshot = empty_snapshot(1);
    let result = apply_config_operations(
        &mut snapshot,
        &[
            ConfigOperation::UpsertClientGroup(group("a")),
            ConfigOperation::UpsertEgressUpstream(upstream("x", "p")),
        ],
    );
    assert!(result.is_ok());
    snapshot.token_cache = vec![
        TokenCacheEntryDef {
            hash_hex: "h".into(),
            client_group: "a".into(),
            client_status: ClientStatus::Active,
            token_status: TokenStatus::Active,
        };
        2
    ];
    snapshot.client_groups.push(group("a"));
    let err = apply_config_operations(&mut snapshot, &[]).unwrap_err();
    assert_eq!(err, DuplicateKey::ClientGroup);
    assert_eq!(err.message(), "duplicate client group");
}

#[test]
fn upsert_replaces_by_key_and_delete_removes_every_match() {
    let mut snapshot = empty_snapshot(1);
    apply_config_operations(
        &mut snapshot,
        &[
            ConfigOperation::UpsertEgressUpstream(upstream("api", "round_robin")),
            ConfigOperation::UpsertEgressUpstream(upstream("web", "round_robin")),
            ConfigOperation::UpsertEgressUpstream(upstream("api", "least_conn")),
        ],
    )
    .unwrap();
    assert_eq!(snapshot.egress_upstreams.len(), 2);
    assert_eq!(snapshot.egress_upstreams[0].lb_policy, "least_conn");
    apply_config_operations(
        &mut snapshot,
        &[ConfigOperation::DeleteEgressUpstream { name: "api".into() }],
    )
    .unwrap();
    assert_eq!(snapshot.egress_upstreams.len(), 1);
    assert_eq!(snapshot.egress_upstreams[0].name, "web");
}

#[test]
fn diff_and_apply_reconstruct_target() {
    let base = empty_snapshot(1);
    let target = ConfigSnapshot {
        resource_version: 2,
        egress_upstreams: vec![upstream("api", "round_robin")],
        ..base.clone()
    };
    let operations = diff_snapshots(&base, &target);
    let mut applied = base;
    apply_config_operations(&mut applied, &operations).unwrap();
    applied.resource_version = target.resource_version;
    assert_eq!(applied, target);
}

#[test]
fn diff_lists_changes_in_key_order_per_collection() {
    let mut prev = empty_snapshot(1);
    prev.egress_upstreams = vec![upstream("b", "p"), upstream("a", "p"), upstream("c", "p")];
    prev.egress_vhost_rules =
        vec![EgressVhostRuleDef { match_host: "x.example".into(), action_upstream: "a".into() }];
    let mut next = empty_snapshot(2);
    next.egress_upstreams = vec![upstream("c", "q"), upstream("a", "p"), upstream("d", "p")];
    let ops = diff_snapshots(&prev, &next);
    assert_eq!(
        ops,
        vec![
            ConfigOperation::DeleteEgressUpstream { name: "b".into() },
            ConfigOperation::UpsertEgressUpstream(upstream("c", "q")),
            ConfigOperation::UpsertEgressUpstream(upstream("d", "p")),
            ConfigOperation::DeleteEgressVhostRule { match_host: "x.example".into() },
        ]
    );
    assert!(diff_snapshots(&next, &next).is_empty());
    let mut applied = prev.clone();
    apply_config_operations(&mut applied, &ops).unwrap();
    assert_eq!(applied.egress_upstreams.len(), 3);
    assert!(applied.egress_vhost_rules.is_empty());
}

fn valid_snapshot() -> ConfigSnapshot {
    let mut s = empty_snapshot(1);
    s.client_groups = vec![ClientGroupDef {
        group_id: "g".into(),
        config_version: "v1".into(),
        upstreams: vec![ClientUpstreamDef {
            name: "u".into(),
            lb_policy: "round_robin".into(),
            servers: vec![UpstreamServerDef { address: "127.0.0.1:80".into(), resolve: false }],
        }],
    }];
    s.ingress_listeners = vec![
        IngressListenerDef {
            id: 1,
            port: 80,
            mode: IngressListenerModeDef::Http {
                vhost: vec![IngressVhostRuleDef {
                    match_host: "a.example".into(),
                    group_id: "g".into(),
                    proxy_name: "p".into(),
                }],
            },
        },
        IngressListenerDef {
            id: 2,
            port: 81,
            mode: IngressListenerModeDef::Tcp { group_id: "g".into(), proxy_name: "p".into() },
        },
    ];
    s.egress_upstreams = vec![upstream("api", "round_robin")];
    s.egress_vhost_rules =
        vec![EgressVhostRuleDef { match_host: "api.example".into(), action_upstream: "api".into() }];
    s.token_cache = vec![TokenCacheEntryDef {
        hash_hex: "ab".into(),
        client_group: "g".into(),
        client_status: ClientStatus::Active,
        token_status: TokenStatus::Active,
    }];
    s
}

#[test]
fn consistent_snapshot_passes_validation() {
    assert_eq!(validate_config_snapshot(&valid_snapshot()), Ok(()));
}

#[test]
fn each_snapshot_rule_reports_its_error() {
    let mut s = valid_snapshot();
    s.client_groups[0].group_id = " \t".into();
    assert_eq!(validate_config_snapshot(&s), Err(SnapshotError::DuplicateOrEmptyClientGroup));

    let mut s = valid_snapshot();
    s.ingress_listeners[1].port = 80;
    let e = validate_config_snapshot(&s).unwrap_err();
    assert_eq!(e, SnapshotError::DuplicateIngressPort(80));
    assert_eq!(e.message(), "snapshot contains duplicate ingress listener port 80");

    let mut s = valid_snapshot();
    s.ingress_listeners[0].mode = IngressListenerModeDef::Http {
        vhost: vec![IngressVhostRuleDef {
            match_host: "a.example".into(),
            group_id: "nope".into(),
            proxy_name: "p".into(),
        }],
    };
    assert_eq!(validate_config_snapshot(&s), Err(SnapshotError::InvalidIngressVhostRule));

    let mut s = valid_snapshot();
    s.ingress_listeners[1].mode =
        IngressListenerModeDef::Tcp { group_id: "nope".into(), proxy_name: "p".into() };
    assert_eq!(validate_config_snapshot(&s), Err(SnapshotError::UnknownListenerGroup));

    let mut s = valid_snapshot();
    let u = s.client_groups[0].upstreams[0].clone();
    s.client_groups[0].upstreams.push(u);
    assert_eq!(validate_config_snapshot(&s), Err(SnapshotError::InvalidClientUpstreamNames));

    let mut s = valid_snapshot();
    s.client_groups[0].upstreams[0].servers[0].address = "".into();
    assert_eq!(validate_config_snapshot(&s), Err(SnapshotError::EmptyClientServerAddress));

    let mut s = valid_snapshot();
    s.egress_upstreams.push(upstream("api", "x"));
    assert_eq!(validate_config_snapshot(&s), Err(SnapshotError::InvalidEgressUpstreams));

    let mut s = valid_snapshot();
    s.egress_vhost_rules[0].action_upstream = "missing".into();
    assert_eq!(validate_config_snapshot(&s), Err(SnapshotError::InvalidEgressVhostRule));

    let mut s = valid_snapshot();
    let t = s.token_cache[0].clone();
    s.token_cache.push(t);
    assert_eq!(validate_config_snapshot(&s), Err(SnapshotError::InvalidTokenCacheEntries));
}

#[test]
fn earlier_listener_problem_wins_over_later_duplicate_port() {
    let mut s = valid_snapshot();
    s.ingress_listeners[0].mode =
        IngressListenerModeDef::Tcp { group_id: "nope".into(), proxy_name: "p".into() };
    s.ingress_listeners[1].port = 80;
    assert_eq!(validate_config_snapshot(&s), Err(SnapshotError::UnknownListenerGroup));
}

#[test]
fn diff_then_apply_has_the_target_canonical_form() {
    let mut prev = empty_snapshot(1);
    prev.egress_upstreams = vec![upstream("b", "p"), upstream("a", "p"), upstream("c", "p")];
    let mut next = empty_snapshot(9);
    next.egress_upstreams = vec![upstream("d", "p"), upstream("c", "q"), upstream("a", "p")];
    let ops = diff_snapshots(&prev, &next);
    let mut applied = prev.clone();
    apply_config_operations(&mut applied, &ops).unwrap();
    assert_ne!(applied.egress_upstreams, next.egress_upstreams);
    assert_eq!(canonical_snapshot(&applied), canonical_snapshot(&next));
}
