use duotunnel::config::RoutingData;
use duotunnel::ctld::ConfigOperation;
use duotunnel::host::HostError;
use duotunnel::layer::{
    apply_override_operation, clear_override, merge_layers, normalize_and_validate_overrides,
    normalize_and_validate_routing, ConflictKind, IdField, KeyKind, LayerError,
    OverrideTombstones, SqliteOverrideLayer,
};
use duotunnel::model::{
    ClientGroupDef, ClientUpstreamDef, EgressUpstreamDef, EgressVhostRuleDef, IngressListenerDef,
    IngressListenerModeDef, UpstreamServerDef,
};

fn group(id: &str) -> ClientGroupDef {
    ClientGroupDef {
        group_id: id.into(),
        config_version: "1".into(),
        upstreams: vec![ClientUpstreamDef {
            name: "default".into(),
            lb_policy: "round_robin".into(),
            servers: vec![UpstreamServerDef { address: "127.0.0.1:8080".into(), resolve: false }],
        }],
    }
}

fn upstream(name: &str) -> EgressUpstreamDef {
    EgressUpstreamDef {
        name: name.into(),
        lb_policy: "round_robin".into(),
        servers: vec![UpstreamServerDef { address: "127.0.0.1:8080".into(), resolve: false }],
    }
}

fn base() -> RoutingData {
    RoutingData {
        ingress_listeners: vec![IngressListenerDef {
            id: 1,
            port: 8080,
            mode: IngressListenerModeDef::Http { vhost: vec![] },
        }],
        client_groups: vec![group("base")],
        ..RoutingData::default()
    }
}

fn empty_overrides() -> SqliteOverrideLayer {
    SqliteOverrideLayer { routing: RoutingData::default(), tombstones: OverrideTombstones::default() }
}

#[test]
fn layer_sqlite_override_wins_and_clear_restores_yaml() {
    let mut overrides = empty_overrides();
    apply_override_operation(&mut overrides, &ConfigOperation::DeleteIngressListener { port: 8080 })
        .unwrap();
    assert!(merge_layers(&base(), &overrides).unwrap().ingress_listeners.is_empty());

    clear_override(&mut overrides, "ingress_listener", "8080").unwrap();
    assert_eq!(merge_layers(&base(), &overrides).unwrap(), base());

    apply_override_operation(
        &mut overrides,
        &ConfigOperation::UpsertIngressListener(IngressListenerDef {
            id: 2,
            port: 8080,
            mode: IngressListenerModeDef::Tcp { group_id: "base".into(), proxy_name: "tcp".into() },
        }),
    )
    .unwrap();
    assert!(matches!(
        &merge_layers(&base(), &overrides).unwrap().ingress_listeners[0].mode,
        IngressListenerModeDef::Tcp { .. }
    ));
}

#[test]
fn normalize_routing_canonicalizes_hosts_and_identifiers() {
    let mut routing = RoutingData {
        client_groups: vec![group(" group-a ")],
        egress_upstreams: vec![upstream(" upstream-a ")],
        egress_vhost_rules: vec![EgressVhostRuleDef {
            match_host: "Example.COM:443".into(),
            action_upstream: "upstream-a".into(),
        }],
        ..RoutingData::default()
    };

    normalize_and_validate_routing(&mut routing).unwrap();

    assert_eq!(routing.client_groups[0].group_id, "group-a");
    assert_eq!(routing.egress_upstreams[0].name, "upstream-a");
    assert_eq!(routing.egress_vhost_rules[0].match_host, "example.com");
}

#[test]
fn normalize_routing_rejects_duplicate_keys() {
    let cases = [
        RoutingData {
            ingress_listeners: vec![
                IngressListenerDef {
                    id: 1,
                    port: 8080,
                    mode: IngressListenerModeDef::Http { vhost: vec![] },
                },
                IngressListenerDef {
                    id: 2,
                    port: 8080,
                    mode: IngressListenerModeDef::Http { vhost: vec![] },
                },
            ],
            ..RoutingData::default()
        },
        RoutingData { client_groups: vec![group("group-a"), group(" group-a ")], ..RoutingData::default() },
        RoutingData {
            egress_upstreams: vec![upstream("upstream-a"), upstream(" upstream-a ")],
            ..RoutingData::default()
        },
        RoutingData {
            egress_vhost_rules: vec![
                EgressVhostRuleDef { match_host: "Example.COM".into(), action_upstream: "a".into() },
                EgressVhostRuleDef { match_host: "example.com".into(), action_upstream: "b".into() },
            ],
            ..RoutingData::default()
        },
    ];

    for mut routing in cases {
        assert!(normalize_and_validate_routing(&mut routing).is_err());
    }
}

#[test]
fn normalize_overrides_rejects_override_and_tombstone_conflicts() {
    let mut overrides = SqliteOverrideLayer {
        routing: RoutingData {
            egress_vhost_rules: vec![EgressVhostRuleDef {
                match_host: "Example.COM".into(),
                action_upstream: "upstream-a".into(),
            }],
            ..RoutingData::default()
        },
        tombstones: OverrideTombstones {
            egress_vhost_rules: vec!["example.com".into()],
            ..OverrideTombstones::default()
        },
    };

    assert!(normalize_and_validate_overrides(&mut overrides).is_err());
}

#[test]
fn merge_layers_normalizes_host_keys_before_tombstone_matching() {
    let base = RoutingData {
        egress_upstreams: vec![upstream("upstream-a")],
        egress_vhost_rules: vec![EgressVhostRuleDef {
            match_host: "Example.COM:443".into(),
            action_upstream: "upstream-a".into(),
        }],
        ..RoutingData::default()
    };
    let overrides = SqliteOverrideLayer {
        routing: RoutingData::default(),
        tombstones: OverrideTombstones {
            egress_vhost_rules: vec!["example.com".into()],
            ..OverrideTombstones::default()
        },
    };

    assert!(merge_layers(&base, &overrides).unwrap().egress_vhost_rules.is_empty());
}

#[test]
fn layer_errors_name_the_first_problem() {
    let mut r = RoutingData { client_groups: vec![group("  ")], ..RoutingData::default() };
    assert_eq!(
        normalize_and_validate_routing(&mut r),
        Err(LayerError::EmptyIdentifier(IdField::ClientGroupId))
    );
    assert_eq!(r.client_groups[0].group_id, "  ");

    let mut r = RoutingData {
        egress_vhost_rules: vec![EgressVhostRuleDef {
            match_host: "http://x".into(),
            action_upstream: "a".into(),
        }],
        ..RoutingData::default()
    };
    assert_eq!(
        normalize_and_validate_routing(&mut r),
        Err(LayerError::InvalidHost(HostError::NotBareHost))
    );

    let mut o = SqliteOverrideLayer {
        routing: RoutingData { client_groups: vec![group("g")], ..RoutingData::default() },
        tombstones: OverrideTombstones { client_groups: vec![" g ".into()], ..OverrideTombstones::default() },
    };
    assert_eq!(
        normalize_and_validate_overrides(&mut o),
        Err(LayerError::OverrideTombstoneConflict(ConflictKind::ClientGroup))
    );

    let mut o = empty_overrides();
    o.tombstones.ingress_ports = vec![1, 1];
    assert_eq!(
        normalize_and_validate_overrides(&mut o),
        Err(LayerError::DuplicateKey(KeyKind::IngressListenerTombstone))
    );
}

#[test]
fn merge_reports_unknown_references() {
    let base = RoutingData {
        ingress_listeners: vec![IngressListenerDef {
            id: 1,
            port: 81,
            mode: IngressListenerModeDef::Tcp { group_id: "nope".into(), proxy_name: "p".into() },
        }],
        ..RoutingData::default()
    };
    assert_eq!(
        merge_layers(&base, &empty_overrides()),
        Err(LayerError::UnknownTcpGroup("nope".into()))
    );
    let base = RoutingData {
        egress_vhost_rules: vec![EgressVhostRuleDef {
            match_host: "a.example".into(),
            action_upstream: "missing".into(),
        }],
        ..RoutingData::default()
    };
    assert_eq!(
        merge_layers(&base, &empty_overrides()),
        Err(LayerError::UnknownUpstream("missing".into()))
    );
}

#[test]
fn override_operations_upsert_delete_and_refuse_tokens() {
    let mut o = empty_overrides();
    apply_override_operation(&mut o, &ConfigOperation::UpsertEgressUpstream(upstream(" api ")))
        .unwrap();
    assert_eq!(o.routing.egress_upstreams[0].name, "api");
    apply_override_operation(&mut o, &ConfigOperation::DeleteEgressUpstream { name: "api ".into() })
        .unwrap();
    assert!(o.routing.egress_upstreams.is_empty());
    assert_eq!(o.tombstones.egress_upstreams, vec!["api".to_string()]);
    assert_eq!(
        apply_override_operation(&mut o, &ConfigOperation::DeleteToken { hash_hex: "x".into() }),
        Err(LayerError::TokenOperation)
    );
    clear_override(&mut o, "egress_upstream", " api").unwrap();
    assert!(o.tombstones.egress_upstreams.is_empty());
    assert_eq!(clear_override(&mut o, "ingress_listener", "70000"), Err(LayerError::InvalidIngressPort));
    assert_eq!(
        clear_override(&mut o, "widget", "x"),
        Err(LayerError::UnknownResource("widget".into()))
    );
}

#[test]
fn layer_error_messages() {
    assert_eq!(
        LayerError::EmptyIdentifier(IdField::TcpListenerGroupId).message(),
        "TCP listener group id must not be empty"
    );
    assert_eq!(LayerError::DuplicateKey(KeyKind::EgressVhostRule).message(), "duplicate egress vhost rule key");
    assert_eq!(
        LayerError::OverrideTombstoneConflict(ConflictKind::IngressListener).message(),
        "ingress listener override and tombstone share a key"
    );
    assert_eq!(LayerError::InvalidHost(HostError::InvalidPort).message(), "port must be a valid u16");
    assert_eq!(
        LayerError::UnknownResource("x".into()).message(),
        "unknown override resource: x"
    );
}

#[test]
fn clearing_an_untouched_port_gives_the_override_layer_back() {
    let mut o = empty_overrides();
    apply_override_operation(&mut o, &ConfigOperation::UpsertClientGroup(group("extra"))).unwrap();
    let before = o.clone();

    apply_override_operation(&mut o, &ConfigOperation::DeleteIngressListener { port: 9090 }).unwrap();
    assert_ne!(o, before);
    clear_override(&mut o, "ingress_listener", "9090").unwrap();
    assert_eq!(o, before);

    apply_override_operation(
        &mut o,
        &ConfigOperation::UpsertIngressListener(IngressListenerDef {
            id: 7,
            port: 9090,
            mode: IngressListenerModeDef::Http { vhost: vec![] },
        }),
    )
    .unwrap();
    assert_ne!(o, before);
    clear_override(&mut o, "ingress_listener", "9090").unwrap();
    assert_eq!(o, before);
}
