use duotunnel::host::{canonicalize_egress_host, HostError, PortRouter, VhostRouter};
use duotunnel::http_utils::{extract_host_from_http, extract_method_path_from_http};

#[test]
fn canonicalize_egress_host_strips_ports_and_lowercases_domains() {
    assert_eq!(canonicalize_egress_host("Example.COM:443").unwrap(), "example.com");
    assert_eq!(canonicalize_egress_host("[::1]:443").unwrap(), "::1");
    assert_eq!(canonicalize_egress_host("*.Example.COM:443").unwrap(), "*.example.com");
}

#[test]
fn canonicalize_egress_host_rejects_urls() {
    assert!(canonicalize_egress_host("https://example.com").is_err());
}

#[test]
fn canonicalize_egress_host_reports_each_refusal() {
    assert_eq!(canonicalize_egress_host("   ").unwrap_err(), HostError::Empty);
    assert_eq!(canonicalize_egress_host("a/b").unwrap_err(), HostError::NotBareHost);
    assert_eq!(canonicalize_egress_host("*.").unwrap_err(), HostError::EmptyWildcardSuffix);
    assert_eq!(canonicalize_egress_host("[::1").unwrap_err(), HostError::MissingClosingBracket);
    assert_eq!(canonicalize_egress_host("[::1]x").unwrap_err(), HostError::UnexpectedAfterBracket);
    assert_eq!(canonicalize_egress_host("example.com:99999").unwrap_err(), HostError::InvalidPort);
    assert_eq!(canonicalize_egress_host("  Example.com  ").unwrap(), "example.com");
}

#[test]
fn test_vhost_router_exact_match() {
    let mut router: VhostRouter<String> = VhostRouter::new();
    router.add_route("example.com", "group-a".to_string());
    assert_eq!(router.get("example.com"), Some("group-a".to_string()));
    assert_eq!(router.get("Example.COM"), Some("group-a".to_string()));
    assert_eq!(router.get("other.com"), None);
}

#[test]
fn test_vhost_router_wildcard() {
    let mut router: VhostRouter<String> = VhostRouter::new();
    router.add_route("*.example.com", "group-a".to_string());
    assert_eq!(router.get("api.example.com"), Some("group-a".to_string()));
    assert_eq!(router.get("www.example.com"), Some("group-a".to_string()));
    assert_eq!(router.get("example.com"), None);
}

#[test]
fn test_vhost_router_with_port() {
    let mut router: VhostRouter<String> = VhostRouter::new();
    router.add_route("example.com:443", "group-a".to_string());
    assert_eq!(router.get("example.com:8080"), Some("group-a".to_string()));
}

#[test]
fn test_vhost_router_bracketed_ipv6_with_port() {
    let mut router: VhostRouter<String> = VhostRouter::new();
    router.add_route("[::1]:443", "group-a".to_string());
    assert_eq!(router.get("[::1]:8443"), Some("group-a".to_string()));
}

#[test]
fn test_extract_host() {
    let req = b"GET / HTTP/1.1\r\nHost: example.com\r\nContent-Type: text/html\r\n\r\n";
    assert_eq!(extract_host_from_http(req), Some("example.com".to_string()));
}

#[test]
fn test_extract_method_path() {
    let req = b"GET /api/users HTTP/1.1\r\nHost: example.com\r\n\r\n";
    assert_eq!(
        extract_method_path_from_http(req),
        Some(("GET".to_string(), "/api/users".to_string()))
    );
}

#[test]
fn test_vhost_router_is_empty_and_len() {
    let mut router: VhostRouter<String> = VhostRouter::new();
    assert!(router.is_empty());
    assert_eq!(router.len(), 0);
    router.add_route("a.com", "x".to_string());
    assert!(!router.is_empty());
    assert_eq!(router.len(), 1);
    router.add_route("*.b.com", "y".to_string());
    assert_eq!(router.len(), 2);
}

#[test]
fn test_vhost_router_remove_exact() {
    let mut router: VhostRouter<String> = VhostRouter::new();
    router.add_route("example.com", "group-a".to_string());
    assert_eq!(router.get("example.com"), Some("group-a".to_string()));
    router.remove("example.com");
    assert_eq!(router.get("example.com"), None);
    assert!(router.is_empty());
}

#[test]
fn test_vhost_router_remove_wildcard() {
    let mut router: VhostRouter<String> = VhostRouter::new();
    router.add_route("*.example.com", "group-a".to_string());
    assert_eq!(router.get("api.example.com"), Some("group-a".to_string()));
    router.remove("*.example.com");
    assert_eq!(router.get("api.example.com"), None);
    assert!(router.is_empty());
}

#[test]
fn test_vhost_router_remove_nonexistent_is_noop() {
    let mut router: VhostRouter<String> = VhostRouter::new();
    router.add_route("example.com", "group-a".to_string());
    router.remove("other.com");
    assert_eq!(router.get("example.com"), Some("group-a".to_string()));
    assert_eq!(router.len(), 1);
}

#[test]
fn test_wildcard_does_not_match_parent_domain() {
    let mut router: VhostRouter<String> = VhostRouter::new();
    router.add_route("*.example.com", "wildcard".to_string());
    assert_eq!(router.get("example.com"), None);
}

#[test]
fn test_wildcard_does_not_match_sibling_domain() {
    let mut router: VhostRouter<String> = VhostRouter::new();
    router.add_route("*.example.com", "wildcard".to_string());
    assert_eq!(router.get("notexample.com"), None);
}

#[test]
fn test_exact_takes_priority_over_wildcard() {
    let mut router: VhostRouter<String> = VhostRouter::new();
    router.add_route("*.example.com", "wildcard-group".to_string());
    router.add_route("api.example.com", "exact-group".to_string());
    assert_eq!(router.get("api.example.com"), Some("exact-group".to_string()));
    assert_eq!(router.get("www.example.com"), Some("wildcard-group".to_string()));
}

#[test]
fn test_wildcard_case_insensitive() {
    let mut router: VhostRouter<String> = VhostRouter::new();
    router.add_route("*.EXAMPLE.COM", "group-a".to_string());
    assert_eq!(router.get("Api.Example.Com"), Some("group-a".to_string()));
}

#[test]
fn test_extract_host_uppercase_header_name() {
    let req = b"GET / HTTP/1.1\r\nHOST: example.com\r\n\r\n";
    assert_eq!(extract_host_from_http(req), Some("example.com".to_string()));
}

#[test]
fn test_extract_host_with_port() {
    let req = b"GET / HTTP/1.1\r\nHost: example.com:8080\r\n\r\n";
    assert_eq!(extract_host_from_http(req), Some("example.com:8080".to_string()));
}

#[test]
fn test_extract_host_missing_returns_none() {
    let req = b"GET / HTTP/1.1\r\nContent-Type: text/plain\r\n\r\n";
    assert_eq!(extract_host_from_http(req), None);
}

#[test]
fn test_extract_host_extra_whitespace() {
    let req = b"GET / HTTP/1.1\r\nHost:   example.com  \r\n\r\n";
    assert_eq!(extract_host_from_http(req), Some("example.com".to_string()));
}

#[test]
fn test_extract_method_path_post() {
    let req = b"POST /submit HTTP/1.1\r\nHost: example.com\r\n\r\n";
    assert_eq!(
        extract_method_path_from_http(req),
        Some(("POST".to_string(), "/submit".to_string()))
    );
}

#[test]
fn test_extract_method_path_missing_path_returns_none() {
    let req = b"GET\r\nHost: example.com\r\n\r\n";
    assert_eq!(extract_method_path_from_http(req), None);
}

#[test]
fn test_extract_method_path_root() {
    let req = b"DELETE / HTTP/1.1\r\nHost: example.com\r\n\r\n";
    assert_eq!(
        extract_method_path_from_http(req),
        Some(("DELETE".to_string(), "/".to_string()))
    );
}

#[test]
fn port_router_routes_by_exact_port() {
    let mut router: PortRouter<String> = PortRouter::new();
    router.add_route(8080, "a".to_string());
    router.add_route(9090, "b".to_string());
    assert_eq!(router.get(8080), Some(&"a".to_string()));
    router.add_route(8080, "c".to_string());
    assert_eq!(router.get(8080), Some(&"c".to_string()));
    router.remove(8080);
    assert_eq!(router.get(8080), None);
    assert_eq!(router.get(9090), Some(&"b".to_string()));
}

#[test]
fn port_does_not_change_the_routing_key() {
    for host in ["Example.COM", "*.api.example.com", "localhost", "10.0.0.1"] {
        for port in [0u16, 80, 443, 65535] {
            let with_port = format!("{host}:{port}");
            assert_eq!(canonicalize_egress_host(&with_port).ok(), canonicalize_egress_host(host).ok());
        }
    }
    assert_eq!(canonicalize_egress_host("*.").ok(), None);
    assert_eq!(canonicalize_egress_host("*.:80").ok(), None);
}

#[test]
fn port_router_answers_the_last_value_added() {
    let mut r = PortRouter::new();
    let adds = [(80u16, "a"), (443, "b"), (80, "c"), (8080, "d"), (443, "e")];
    for (p, v) in adds {
        r.add_route(p, v);
    }
    assert_eq!(r.get(80), Some(&"c"));
    assert_eq!(r.get(443), Some(&"e"));
    assert_eq!(r.get(8080), Some(&"d"));
    assert_eq!(r.get(22), None);
}
