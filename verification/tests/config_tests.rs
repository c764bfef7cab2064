use duotunnel::buffers::{
    normalize_http_body_chunk_size, normalize_http_header_buf_size, normalize_peek_buf_size,
    normalize_relay_buf_size, ProxyBufferConfig, ProxyBufferParams,
};
use duotunnel::config::{
    routing_data_from_routing_config, routing_data_from_server_config, ClientConfigs,
    EgressHttpRule, EgressRules, GroupConfig, HttpListenerDef, IngressListenerDef,
    IngressModeDef, IngressRouting, OverloadConfig, QuicConfig, RoutingConfigFile,
    ServerBasicConfig, ServerConfigFile, ServerDef, ServerEgressUpstream, TcpListenerDef,
    TunnelManagement, UpstreamDef, VhostRuleDef,
};
use duotunnel::model::IngressListenerModeDef;

fn basic_config() -> ServerBasicConfig {
    ServerBasicConfig {
        tunnel_port: 8080,
        log_level: None,
        trace_enabled: false,
        database_url: "".to_string(),
        metrics_port: None,
        quic: Default::default(),
        proxy_buffers: Default::default(),
        login_timeout_secs: 10,
        open_stream_timeout_ms: 5000,
        h2_single_authority: true,
        accept_workers: None,
        overload: Default::default(),
        max_unauthenticated_connections: 64,
        connection_registry_capacity: 4096,
    }
}

#[test]
fn default_buffer_config_is_valid() {
    assert!(ProxyBufferConfig::default().validate().is_ok());
}

#[test]
fn buffer_config_rejects_values_outside_supported_range() {
    let config = ProxyBufferConfig { peek_buf_size: 0, ..ProxyBufferConfig::default() };
    assert!(config.validate().is_err());

    let config = ProxyBufferConfig { peek_buf_size: usize::MAX, ..ProxyBufferConfig::default() };
    assert!(config.validate().is_err());
}

#[test]
fn buffer_config_reports_first_field_outside_its_range() {
    let config = ProxyBufferConfig {
        http_header_buf_size: 10,
        relay_buf_size: 1,
        ..ProxyBufferConfig::default()
    };
    assert_eq!(
        config.validate().unwrap_err(),
        "http_header_buf_size is outside the supported buffer range: 10"
    );
}

#[test]
fn buffer_params_report_bounds_of_first_value_outside() {
    let params = ProxyBufferParams { relay_buf_size: 10, ..ProxyBufferParams::default() };
    assert_eq!(
        params.validate().unwrap_err(),
        "relay_buf_size must be between 4096 and 4194304, got 10"
    );
    assert!(ProxyBufferParams::default().validate().is_ok());
}

#[test]
fn normalization_clamps_into_bounds() {
    assert_eq!(normalize_relay_buf_size(0), 4096);
    assert_eq!(normalize_relay_buf_size(usize::MAX), 4 * 1024 * 1024);
    assert_eq!(normalize_peek_buf_size(5000), 5000);
    assert_eq!(normalize_http_header_buf_size(1), 1024);
    assert_eq!(normalize_http_body_chunk_size(2 * 1024 * 1024), 1024 * 1024);
    let config = ProxyBufferConfig { peek_buf_size: 1, ..ProxyBufferConfig::default() };
    let params = ProxyBufferParams::from(&config);
    assert_eq!(params.peek_buf_size, 1024);
    assert!(params.validate().is_ok());
}

#[test]
fn test_tunnel_management_is_empty() {
    let mut tm = TunnelManagement::default();
    assert!(tm.is_empty(), "Expected empty TunnelManagement to return true for is_empty");

    tm.server_ingress_routing.listeners.push(IngressListenerDef {
        port: 8080,
        mode: IngressModeDef::Http(HttpListenerDef::default()),
    });
    assert!(!tm.is_empty(), "Expected non-empty listeners to return false for is_empty");

    let mut tm = TunnelManagement::default();
    tm.client_configs.groups.push((
        "group1".to_string(),
        GroupConfig { config_version: "v1".to_string(), upstreams: Vec::new() },
    ));
    assert!(!tm.is_empty(), "Expected non-empty groups to return false for is_empty");

    tm.server_ingress_routing.listeners.push(IngressListenerDef {
        port: 8080,
        mode: IngressModeDef::Http(HttpListenerDef::default()),
    });
    assert!(
        !tm.is_empty(),
        "Expected both non-empty listeners and groups to return false for is_empty"
    );
}

#[test]
fn test_routing_data_from_server_config_empty() {
    let cfg = ServerConfigFile {
        server: basic_config(),
        server_egress_upstream: Default::default(),
        tunnel_management: Default::default(),
    };

    let routing_data = routing_data_from_server_config(&cfg);

    assert!(routing_data.ingress_listeners.is_empty());
    assert!(routing_data.client_groups.is_empty());
    assert!(routing_data.egress_upstreams.is_empty());
    assert!(routing_data.egress_vhost_rules.is_empty());
    assert!(cfg.validate().is_ok());
    let mut invalid = cfg.clone();
    invalid.server.connection_registry_capacity = 0;
    assert!(invalid.validate().is_err());
}

#[test]
fn test_routing_data_from_server_config_populated() {
    let client_upstreams = vec![(
        "client_up_1".to_string(),
        UpstreamDef {
            servers: vec![ServerDef { address: "10.0.0.1:80".to_string(), resolve: true }],
            lb_policy: "round_robin".to_string(),
        },
    )];
    let groups = vec![(
        "group_a".to_string(),
        GroupConfig { config_version: "v1".to_string(), upstreams: client_upstreams },
    )];
    let egress_upstreams = vec![(
        "egress_up_1".to_string(),
        UpstreamDef {
            servers: vec![ServerDef { address: "20.0.0.1:443".to_string(), resolve: false }],
            lb_policy: "least_conn".to_string(),
        },
    )];

    let cfg = ServerConfigFile {
        server: basic_config(),
        server_egress_upstream: ServerEgressUpstream {
            upstreams: egress_upstreams,
            rules: EgressRules {
                vhost: vec![EgressHttpRule {
                    match_host: "Example.COM:443".to_string(),
                    action_upstream: "egress_up_1".to_string(),
                }],
            },
        },
        tunnel_management: TunnelManagement {
            server_ingress_routing: IngressRouting {
                listeners: vec![
                    IngressListenerDef {
                        port: 80,
                        mode: IngressModeDef::Http(HttpListenerDef {
                            vhost: vec![VhostRuleDef {
                                match_host: "test.local".to_string(),
                                client_group: "group_a".into(),
                                proxy_name: "proxy_1".into(),
                            }],
                        }),
                    },
                    IngressListenerDef {
                        port: 443,
                        mode: IngressModeDef::Tcp(TcpListenerDef {
                            client_group: "group_b".into(),
                            proxy_name: "proxy_2".into(),
                        }),
                    },
                ],
            },
            client_configs: ClientConfigs { groups },
        },
    };

    let routing_data = routing_data_from_server_config(&cfg);

    assert_eq!(routing_data.ingress_listeners.len(), 2);

    let http_listener = routing_data.ingress_listeners.iter().find(|l| l.port == 80).unwrap();
    assert_eq!(
        http_listener.id, 0,
        "IngressListener ID should be initialized to 0 for DB auto-assignment"
    );
    if let IngressListenerModeDef::Http { vhost } = &http_listener.mode {
        assert_eq!(vhost.len(), 1);
        assert_eq!(vhost[0].match_host, "test.local");
        assert_eq!(vhost[0].group_id, "group_a");
        assert_eq!(vhost[0].proxy_name, "proxy_1");
    } else {
        panic!("Expected Http mode");
    }

    let tcp_listener = routing_data.ingress_listeners.iter().find(|l| l.port == 443).unwrap();
    assert_eq!(
        tcp_listener.id, 0,
        "IngressListener ID should be initialized to 0 for DB auto-assignment"
    );
    if let IngressListenerModeDef::Tcp { group_id, proxy_name } = &tcp_listener.mode {
        assert_eq!(group_id, "group_b");
        assert_eq!(proxy_name, "proxy_2");
    } else {
        panic!("Expected Tcp mode");
    }

    assert_eq!(routing_data.client_groups.len(), 1);
    let group = &routing_data.client_groups[0];
    assert_eq!(group.group_id, "group_a");
    assert_eq!(group.config_version, "v1");
    assert_eq!(group.upstreams.len(), 1);
    let up = &group.upstreams[0];
    assert_eq!(up.name, "client_up_1");
    assert_eq!(up.lb_policy, "round_robin");
    assert_eq!(up.servers.len(), 1);
    assert_eq!(up.servers[0].address, "10.0.0.1:80");
    assert!(up.servers[0].resolve);

    assert_eq!(routing_data.egress_upstreams.len(), 1);
    let eup = &routing_data.egress_upstreams[0];
    assert_eq!(eup.name, "egress_up_1");
    assert_eq!(eup.lb_policy, "least_conn");
    assert_eq!(eup.servers.len(), 1);
    assert_eq!(eup.servers[0].address, "20.0.0.1:443");
    assert!(!eup.servers[0].resolve);

    assert_eq!(routing_data.egress_vhost_rules.len(), 1);
    let erule = &routing_data.egress_vhost_rules[0];
    assert_eq!(erule.match_host, "example.com");
    assert_eq!(erule.action_upstream, "egress_up_1");
}

#[test]
fn egress_rule_host_kept_as_written_when_it_cannot_be_canonicalized() {
    let cfg = RoutingConfigFile {
        server_egress_upstream: ServerEgressUpstream {
            upstreams: Vec::new(),
            rules: EgressRules {
                vhost: vec![EgressHttpRule {
                    match_host: "https://Example.com".to_string(),
                    action_upstream: "x".to_string(),
                }],
            },
        },
        tunnel_management: TunnelManagement::default(),
    };
    let data = routing_data_from_routing_config(&cfg);
    assert_eq!(data.egress_vhost_rules[0].match_host, "https://Example.com");
}

#[test]
fn server_config_validation_lists_every_problem() {
    let mut server = basic_config();
    server.tunnel_port = 0;
    server.open_stream_timeout_ms = 0;
    server.quic = QuicConfig { shards: Some(0), ..QuicConfig::default() };
    server.overload = OverloadConfig { emfile_backoff_ms: 100, max_pending_streams: Some(0) };
    server.proxy_buffers.relay_buf_size = 1;
    let cfg = ServerConfigFile {
        server,
        server_egress_upstream: Default::default(),
        tunnel_management: Default::default(),
    };
    assert_eq!(
        cfg.validate().unwrap_err(),
        "Server config validation failed:\n  - server.tunnel_port must not be 0\n  - server.open_stream_timeout_ms must be >= 1\n  - server.proxy_buffers: relay_buf_size is outside the supported buffer range: 1\n  - server.quic.shards must be >= 1 when set\n  - server.overload.max_pending_streams must be >= 1 when set"
    );
}

#[test]
fn overload_config_resolves_through_overload_limits() {
    let c = OverloadConfig::default();
    assert_eq!(c.emfile_backoff_ms, 100);
    assert_eq!(c.resolve(100).max_pending_streams, 25);
    let c = OverloadConfig { emfile_backoff_ms: 1, max_pending_streams: Some(3) };
    assert_eq!(c.resolve(100).max_pending_streams, 3);
}

#[test]
fn tcp_route_uses_the_first_listener_on_the_port() {
    let routing = IngressRouting {
        listeners: vec![
            IngressListenerDef {
                port: 8080,
                mode: IngressModeDef::Http(HttpListenerDef::default()),
            },
            IngressListenerDef {
                port: 9000,
                mode: IngressModeDef::Tcp(TcpListenerDef {
                    client_group: "g1".into(),
                    proxy_name: "ssh".into(),
                }),
            },
            IngressListenerDef {
                port: 8080,
                mode: IngressModeDef::Tcp(TcpListenerDef {
                    client_group: "g2".into(),
                    proxy_name: "other".into(),
                }),
            },
        ],
    };
    assert_eq!(routing.tcp_route(9000), Some(("g1".to_string(), "ssh".to_string())));
    assert_eq!(routing.tcp_route(8080), None);
    assert_eq!(routing.tcp_route(1), None);
}
