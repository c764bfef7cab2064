use duotunnel::admin::{parse_idempotency_key, percent_encode, request_header, MAX_IDEMPOTENCY_KEY_LEN};
use duotunnel::metrics_text::{append_client_resource_metrics, append_resource_metrics};
use duotunnel::revision::EphemeralControlRevisionStore;

#[test]
fn parses_idempotency_key_without_affecting_other_headers() {
    let request =
        "GET /v1/tokens HTTP/1.1\r\nHost: localhost\r\nIdempotency-Key: request-1\r\n\r\n";
    assert_eq!(
        parse_idempotency_key(request).unwrap().as_deref(),
        Some("request-1")
    );

    let request = "GET /v1/tokens HTTP/1.1\r\nhOsT: localhost\r\n\r\n";
    assert_eq!(parse_idempotency_key(request).unwrap(), None);
}

#[test]
fn rejects_invalid_idempotency_key() {
    let request =
        "POST /v1/clients/rotate?name=alpha HTTP/1.1\r\nIdempotency-Key: bad key\r\n\r\n";
    assert!(parse_idempotency_key(request).is_err());
}

#[test]
fn idempotency_key_length_limits() {
    let empty = "GET / HTTP/1.1\r\nIdempotency-Key:   \r\n\r\n";
    assert!(parse_idempotency_key(empty).is_err());
    let longest = format!(
        "GET / HTTP/1.1\r\nIdempotency-Key: {}\r\n\r\n",
        "k".repeat(MAX_IDEMPOTENCY_KEY_LEN)
    );
    assert_eq!(
        parse_idempotency_key(&longest).unwrap().map(|key| key.len()),
        Some(MAX_IDEMPOTENCY_KEY_LEN)
    );
    let too_long = format!(
        "GET / HTTP/1.1\r\nIdempotency-Key: {}\r\n\r\n",
        "k".repeat(MAX_IDEMPOTENCY_KEY_LEN + 1)
    );
    let error = parse_idempotency_key(&too_long).unwrap_err();
    assert_eq!(error.message(), "invalid Idempotency-Key");
}

#[test]
fn request_header_is_case_insensitive_trimmed_and_stops_at_body() {
    let request = "POST /x HTTP/1.1\r\nX-Token:  abc \r\n\r\nX-Other: body\r\n";
    assert_eq!(request_header(request, "x-token").as_deref(), Some("abc"));
    assert_eq!(request_header(request, "X-Other"), None);
    // The request line is never a header.
    assert_eq!(request_header("Host: a\r\n\r\n", "Host"), None);
}

#[test]
fn percent_encode_keeps_unreserved_bytes() {
    assert_eq!(percent_encode("alpha-1_b.c"), "alpha-1_b.c");
    assert_eq!(percent_encode("a b&c"), "a%20b%26c");
    assert_eq!(percent_encode("é"), "%C3%A9");
    assert_eq!(percent_encode(""), "");
}

#[test]
fn server_resource_gauges_follow_the_body() {
    let mut body = String::from("up 1");
    append_resource_metrics(&mut body, 1, 2, 3, 4);
    assert_eq!(
        body,
        "up 1\n\
# HELP duotunnel_slowpath_waiting_tasks Active tasks waiting in slowpath overload backoff.\n\
# TYPE duotunnel_slowpath_waiting_tasks gauge\n\
duotunnel_slowpath_waiting_tasks 1\n\
# HELP duotunnel_reverse_streams_active Active reverse tunnel streams.\n\
# TYPE duotunnel_reverse_streams_active gauge\n\
duotunnel_reverse_streams_active 2\n\
# HELP duotunnel_http_requests_active Active HTTP requests.\n\
# TYPE duotunnel_http_requests_active gauge\n\
duotunnel_http_requests_active 3\n\
# HELP duotunnel_udp_tasks_active Active UDP dispatch and reply tasks.\n\
# TYPE duotunnel_udp_tasks_active gauge\n\
duotunnel_udp_tasks_active 4\n"
    );
}

#[test]
fn client_resource_gauges_count_flags_as_zero_or_one() {
    let mut body = String::new();
    append_client_resource_metrics(&mut body, 0, 3, 4, true, false, true);
    assert!(body.starts_with("# HELP duotunnel_slowpath_waiting_tasks "));
    assert!(body.contains("\nduotunnel_client_active_tunnels 3\n"));
    assert!(body.contains("\nduotunnel_client_desired_tunnels 4\n"));
    assert!(body.contains("\nduotunnel_client_tunnel_degraded 1\n"));
    assert!(body.contains("\nduotunnel_client_ready 0\n"));
    assert!(body.contains("\nduotunnel_client_pool_actor_alive 1\n"));
    assert!(body.ends_with("duotunnel_client_pool_actor_alive 1\n"));
}

#[test]
fn revision_advances_only_on_new_content() {
    let mut store = EphemeralControlRevisionStore::new();
    assert_eq!(store.current().sequence, 1);
    assert_eq!(store.current().epoch, "ephemeral");
    assert_eq!(store.commit_snapshot_hash("hash-a").sequence, 1);
    assert_eq!(store.commit_snapshot_hash("hash-a").sequence, 1);
    assert_eq!(store.commit_snapshot_hash("hash-b").sequence, 2);
    assert_eq!(store.commit_snapshot_hash("hash-a").sequence, 3);
    assert_eq!(store.current().sequence, 3);
}

use duotunnel::admin_route::{
    admin_query_decodes, mutation_request_id, percent_decode, route_admin_request,
    token_list_row, AdminRoute,
};

#[test]
fn routes_client_mutations_by_path_and_name() {
    let request = "POST /v1/clients/create?name=alpha HTTP/1.1\r\nHost: localhost\r\n\r\n";
    assert_eq!(
        route_admin_request(request),
        AdminRoute::CreateClient { name: "alpha".into() }
    );
    let request = "POST /v1/clients/rotate?x=1&name=a%20b HTTP/1.1\r\n\r\n";
    assert_eq!(
        route_admin_request(request),
        AdminRoute::RotateToken { name: "a b".into() }
    );
    let request = "POST /v1/clients/revoke?name=beta&name=gamma HTTP/1.1\r\n\r\n";
    assert_eq!(
        route_admin_request(request),
        AdminRoute::RevokeToken { name: "beta".into() }
    );
    // Without a name the mutation paths are unknown endpoints.
    let request = "POST /v1/clients/create HTTP/1.1\r\n\r\n";
    assert_eq!(
        route_admin_request(request),
        AdminRoute::Rejected { status: 404, message: "unknown admin endpoint".into() }
    );
}

#[test]
fn routes_config_operations() {
    let request = "POST /v1/config/override HTTP/1.1\r\nContent-Length: 2\r\n\r\n{}";
    assert_eq!(
        route_admin_request(request),
        AdminRoute::ApplyConfigOverride { body: "{}".into() }
    );
    let request = "POST /v1/config/clear?name=8080&resource=ingress_listener HTTP/1.1\r\n\r\n";
    assert_eq!(
        route_admin_request(request),
        AdminRoute::ClearConfigOverride {
            resource: "ingress_listener".into(),
            key: "8080".into()
        }
    );
    let request = "POST /v1/config/clear?name=8080 HTTP/1.1\r\n\r\n";
    assert_eq!(
        route_admin_request(request),
        AdminRoute::Rejected { status: 400, message: "resource is required".into() }
    );
}

#[test]
fn routes_token_listing_and_unknown_endpoints() {
    assert_eq!(
        route_admin_request("GET /v1/tokens HTTP/1.1\r\n\r\n"),
        AdminRoute::ListTokens
    );
    assert_eq!(
        route_admin_request("GET /v1/tokens?name=x HTTP/1.1\r\n\r\n"),
        AdminRoute::Rejected { status: 404, message: "unknown admin endpoint".into() }
    );
    assert_eq!(
        route_admin_request(""),
        AdminRoute::Rejected { status: 404, message: "unknown admin endpoint".into() }
    );
}

#[test]
fn percent_decode_takes_bytes_as_characters() {
    assert_eq!(percent_decode("a%20b"), "a b");
    assert_eq!(percent_decode("%zz"), "%zz");
    assert_eq!(percent_decode("%41%4"), "A%4");
    assert_eq!(percent_decode("%+5"), "\u{5}");
    assert_eq!(percent_decode("%C3%A9"), "\u{c3}\u{a9}");
    assert_eq!(percent_decode("\u{e9}"), "\u{c3}\u{a9}");
}

#[test]
fn query_values_that_cannot_be_cut_are_detected() {
    assert!(admin_query_decodes("POST /v1/clients/create?name=a%41 HTTP/1.1\r\n\r\n"));
    assert!(!admin_query_decodes("POST /v1/clients/create?name=%a\u{e9} HTTP/1.1\r\n\r\n"));
}

#[test]
fn mutation_request_id_answers_missing_and_invalid_keys() {
    let ok = "POST /v1/clients/create?name=a HTTP/1.1\r\nIdempotency-Key: r-1\r\n\r\n";
    assert_eq!(mutation_request_id(ok), Ok("r-1".to_string()));
    let missing = "POST /v1/clients/create?name=a HTTP/1.1\r\n\r\n";
    assert_eq!(
        mutation_request_id(missing),
        Err((428, "Idempotency-Key is required for admin mutations".to_string()))
    );
    let bad = "POST /v1/clients/create?name=a HTTP/1.1\r\nIdempotency-Key: a b\r\n\r\n";
    assert_eq!(
        mutation_request_id(bad),
        Err((400, "invalid Idempotency-Key".to_string()))
    );
}

use duotunnel::admin_route::{
    admin_read_step, admin_reason_phrase, admin_request_head, admin_response, AdminHead,
    AdminReadStep, MAX_ADMIN_REQUEST_BYTES,
};

#[test]
fn admin_reason_phrases() {
    assert_eq!(admin_reason_phrase(200), "OK");
    assert_eq!(admin_reason_phrase(428), "Precondition Required");
    assert_eq!(admin_reason_phrase(503), "Service Unavailable");
    assert_eq!(admin_reason_phrase(418), "Unknown Status");
}

#[test]
fn admin_response_counts_body_bytes() {
    assert_eq!(
        admin_response(200, "ok"),
        "HTTP/1.1 200 OK\r\nContent-Type: text/plain\r\nContent-Length: 2\r\nConnection: close\r\n\r\nok"
    );
    let response = admin_response(404, "é");
    assert!(response.starts_with("HTTP/1.1 404 Not Found\r\n"));
    assert!(response.contains("Content-Length: 2\r\n"));
}

#[test]
fn admin_requests_complete_by_method_and_length() {
    assert_eq!(
        admin_read_step(b"GET /v1/tokens HTTP/1.1\r\nHost: x\r\n\r\n"),
        AdminReadStep::Complete
    );
    assert_eq!(admin_read_step(b"GET / HTTP/1.1\r\n"), AdminReadStep::NeedMore);
    assert_eq!(
        admin_read_step(b"POST /x HTTP/1.1\r\nContent-Length: 5\r\n\r\nab"),
        AdminReadStep::NeedMore
    );
    assert_eq!(
        admin_read_step(b"POST /x HTTP/1.1\r\ncontent-length: +5\r\n\r\nabcde"),
        AdminReadStep::Complete
    );
    assert_eq!(
        admin_read_step(b"POST /x HTTP/1.1\r\n\r\n"),
        AdminReadStep::Complete
    );
    assert_eq!(
        admin_read_step(b"GET \xff HTTP/1.1\r\n\r\n"),
        AdminReadStep::InvalidHead
    );
    let big = vec![b'a'; MAX_ADMIN_REQUEST_BYTES + 1];
    assert_eq!(admin_read_step(&big), AdminReadStep::TooLarge);
}

#[test]
fn admin_head_reads_first_length_line() {
    assert_eq!(
        admin_request_head(b"POST /x HTTP/1.1\r\nContent-Length: x\r\nContent-Length: 3\r\n\r\n"),
        AdminHead::Head { header_end: 58, content_length: None, get_without_length: false }
    );
    assert_eq!(
        admin_request_head(b"GET /x HTTP/1.1\r\nContent-Length: 2\r\n\r\n"),
        AdminHead::Head { header_end: 38, content_length: Some(2), get_without_length: false }
    );
    assert_eq!(admin_request_head(b"POST"), AdminHead::Incomplete);
}

#[test]
fn ascii_names_survive_encode_then_decode() {
    for name in ["alpha", "my group/1", "a+b=c&d", "100%", "~tilde~", ""] {
        assert_eq!(percent_decode(&percent_encode(name)), name);
    }
    // Outside ASCII the server reads each encoded byte as one character.
    assert_eq!(percent_decode(&percent_encode("é")), "\u{c3}\u{a9}");
}

#[test]
fn token_list_rows_are_aligned_columns() {
    let row = token_list_row("alpha", "active", 7, Some("active"), "2024-01-01 00:00:00", None);
    let expected = format!(
        "{:<20} {:<10} {:<8} {:<10} {} {}\n",
        "alpha", "active", 7i64, "active", "2024-01-01 00:00:00", "-"
    );
    assert_eq!(row, expected);
    let long = token_list_row(
        "a-client-name-longer-than-twenty",
        "disabled",
        -12,
        None,
        "t0",
        Some("t1"),
    );
    assert_eq!(
        long,
        format!(
            "{:<20} {:<10} {:<8} {:<10} {} {}\n",
            "a-client-name-longer-than-twenty", "disabled", -12i64, "-", "t0", "t1"
        )
    );
    assert_eq!(
        token_list_row("é", "x", i64::MIN, None, "", None),
        format!("{:<20} {:<10} {:<8} {:<10} {} {}\n", "é", "x", i64::MIN, "-", "", "-")
    );
}
