use duotunnel::canonical::{canonical_snapshot, content_hash_of_json, sort_by_key};
use duotunnel::ctld::ConfigSnapshot;
use duotunnel::model::{
    ClientGroupDef, ClientUpstreamDef, EgressUpstreamDef, EgressVhostRuleDef, IngressListenerDef,
    IngressListenerModeDef, IngressVhostRuleDef, UpstreamServerDef,
};
use sha2::{Digest, Sha256};

fn empty_snapshot(resource_version: u64) -> ConfigSnapshot {
    ConfigSnapshot {
        resource_version,
        ingress_listeners: Vec::new(),
        client_groups: Vec::new(),
        egress_upstreams: Vec::new(),
        egress_vhost_rules: Vec::new(),
        token_cache: Vec::new(),
    }
}

fn server(address: &str, resolve: bool) -> UpstreamServerDef {
    UpstreamServerDef { address: address.into(), resolve }
}

#[test]
fn content_hash_excludes_transport_revision_and_is_order_independent() {
    let mut first = empty_snapshot(1);
    let mut second = empty_snapshot(99);
    first.egress_vhost_rules = vec![
        EgressVhostRuleDef { match_host: "b.example".into(), action_upstream: "b".into() },
        EgressVhostRuleDef { match_host: "a.example".into(), action_upstream: "a".into() },
    ];
    second.egress_vhost_rules = first.egress_vhost_rules.iter().rev().cloned().collect();
    assert_eq!(canonical_snapshot(&first), canonical_snapshot(&second));
}

#[test]
fn canonical_form_sorts_every_level() {
    let mut snapshot = empty_snapshot(7);
    snapshot.ingress_listeners = vec![
        IngressListenerDef {
            id: 0,
            port: 9000,
            mode: IngressListenerModeDef::Http {
                vhost: vec![
                    IngressVhostRuleDef {
                        match_host: "z.example".into(),
                        group_id: "g".into(),
                        proxy_name: "p".into(),
                    },
                    IngressVhostRuleDef {
                        match_host: "a.example".into(),
                        group_id: "g".into(),
                        proxy_name: "p".into(),
                    },
                ],
            },
        },
        IngressListenerDef {
            id: 0,
            port: 80,
            mode: IngressListenerModeDef::Tcp { group_id: "g".into(), proxy_name: "p".into() },
        },
    ];
    snapshot.client_groups = vec![
        ClientGroupDef { group_id: "b".into(), config_version: "1".into(), upstreams: vec![] },
        ClientGroupDef {
            group_id: "a".into(),
            config_version: "1".into(),
            upstreams: vec![
                ClientUpstreamDef {
                    name: "y".into(),
                    lb_policy: "round_robin".into(),
                    servers: vec![server("10.0.0.2:80", true), server("10.0.0.2:80", false)],
                },
                ClientUpstreamDef {
                    name: "x".into(),
                    lb_policy: "round_robin".into(),
                    servers: vec![server("10.0.0.9:80", false), server("10.0.0.1:80", true)],
                },
            ],
        },
    ];
    snapshot.egress_upstreams = vec![
        EgressUpstreamDef { name: "q".into(), lb_policy: "least_conn".into(), servers: vec![] },
        EgressUpstreamDef {
            name: "p".into(),
            lb_policy: "least_conn".into(),
            servers: vec![server("b:1", false), server("a:1", false)],
        },
    ];

    let canonical = canonical_snapshot(&snapshot);

    assert_eq!(canonical.resource_version, 0);
    assert_eq!(canonical.ingress_listeners[0].port, 80);
    assert_eq!(canonical.ingress_listeners[1].port, 9000);
    match &canonical.ingress_listeners[1].mode {
        IngressListenerModeDef::Http { vhost } => {
            assert_eq!(vhost[0].match_host, "a.example");
            assert_eq!(vhost[1].match_host, "z.example");
        }
        _ => panic!("expected an HTTP listener"),
    }
    assert_eq!(canonical.client_groups[0].group_id, "a");
    assert_eq!(canonical.client_groups[1].group_id, "b");
    let ups = &canonical.client_groups[0].upstreams;
    assert_eq!(ups[0].name, "x");
    assert_eq!(ups[0].servers, vec![server("10.0.0.1:80", true), server("10.0.0.9:80", false)]);
    assert_eq!(ups[1].servers, vec![server("10.0.0.2:80", false), server("10.0.0.2:80", true)]);
    assert_eq!(canonical.egress_upstreams[0].name, "p");
    assert_eq!(canonical.egress_upstreams[0].servers, vec![server("a:1", false), server("b:1", false)]);
}

#[test]
fn sort_by_key_is_stable() {
    let mut rules = vec![
        EgressVhostRuleDef { match_host: "b".into(), action_upstream: "1".into() },
        EgressVhostRuleDef { match_host: "a".into(), action_upstream: "2".into() },
        EgressVhostRuleDef { match_host: "b".into(), action_upstream: "3".into() },
        EgressVhostRuleDef { match_host: "a".into(), action_upstream: "4".into() },
    ];
    sort_by_key(&mut rules);
    let order: Vec<&str> = rules.iter().map(|r| r.action_upstream.as_str()).collect();
    assert_eq!(order, vec!["2", "4", "1", "3"]);
}

#[test]
fn content_hash_is_domain_separated_sha256_hex() {
    let json = br#"{"resource_version":0}"#;
    let mut data = b"duotunnel-control-protocol-v3\0".to_vec();
    data.extend_from_slice(json);
    let expected = hex::encode(Sha256::digest(&data));
    let hash = content_hash_of_json(json);
    assert_eq!(hash, expected);
    assert_eq!(hash.len(), 64);
    assert_ne!(content_hash_of_json(b"{}"), hash);
}

#[test]
fn canonical_form_ignores_the_order_inside_records() {
    let rule = |host: &str| IngressVhostRuleDef {
        match_host: host.into(),
        group_id: "g".into(),
        proxy_name: "p".into(),
    };
    let upstream = |name: &str, servers: Vec<UpstreamServerDef>| ClientUpstreamDef {
        name: name.into(),
        lb_policy: "round_robin".into(),
        servers,
    };
    let mut first = empty_snapshot(3);
    first.ingress_listeners = vec![IngressListenerDef {
        id: 1,
        port: 8080,
        mode: IngressListenerModeDef::Http { vhost: vec![rule("b.example"), rule("a.example")] },
    }];
    first.client_groups = vec![ClientGroupDef {
        group_id: "g".into(),
        config_version: "1".into(),
        upstreams: vec![
            upstream("web", vec![server("10.0.0.2:80", false), server("10.0.0.1:80", false)]),
            upstream("api", vec![server("10.0.0.3:80", true)]),
        ],
    }];
    first.egress_upstreams = vec![EgressUpstreamDef {
        name: "out".into(),
        lb_policy: "round_robin".into(),
        servers: vec![server("b:1", false), server("a:1", true)],
    }];

    let mut second = empty_snapshot(4);
    second.ingress_listeners = vec![IngressListenerDef {
        id: 1,
        port: 8080,
        mode: IngressListenerModeDef::Http { vhost: vec![rule("a.example"), rule("b.example")] },
    }];
    second.client_groups = vec![ClientGroupDef {
        group_id: "g".into(),
        config_version: "1".into(),
        upstreams: vec![
            upstream("api", vec![server("10.0.0.3:80", true)]),
            upstream("web", vec![server("10.0.0.1:80", false), server("10.0.0.2:80", false)]),
        ],
    }];
    second.egress_upstreams = vec![EgressUpstreamDef {
        name: "out".into(),
        lb_policy: "round_robin".into(),
        servers: vec![server("a:1", true), server("b:1", false)],
    }];

    assert_ne!(first, second);
    assert_eq!(canonical_snapshot(&first), canonical_snapshot(&second));
}
