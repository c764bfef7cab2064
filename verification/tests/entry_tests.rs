use duotunnel::auth::AuthError;
use duotunnel::entry::{
    blocked_host_reply, classify_accept_worker_exit, egress_stream_failed_response, entry_step_after_open_failure,
    exhausted_reply, no_egress_route_response, open_queue_full_response, EntryStep,
    OpenStreamFailure, Protocol,
};

#[test]
fn test_handle_entry_connection_http_reject() {
    let response = blocked_host_reply(Protocol::H1).unwrap();
    assert!(response.starts_with("HTTP/1.1 502 Bad Gateway"));
    assert!(response.contains("X-DuoTunnel-Reject: no-egress-route"));
    assert!(response.ends_with("\r\n\r\n502 Bad Gateway - No Egress Route\n"));
}

#[test]
fn no_egress_route_response_is_exact() {
    assert_eq!(
        no_egress_route_response(),
        "HTTP/1.1 502 Bad Gateway\r\nConnection: close\r\nContent-Type: text/plain\r\n\
Content-Length: 34\r\nX-DuoTunnel-Reject: no-egress-route\r\n\r\n\
502 Bad Gateway - No Egress Route\n"
    );
}

#[test]
fn overload_response_asks_to_retry() {
    let response = open_queue_full_response();
    assert_eq!(
        response,
        "HTTP/1.1 503 Service Unavailable\r\nConnection: close\r\nContent-Type: text/plain\r\n\
Content-Length: 49\r\nRetry-After: 1\r\nX-DuoTunnel-Reject: overload\r\n\r\n\
503 Service Unavailable - Open stream queue full\n"
    );
}

#[test]
fn stream_failure_response_counts_body_bytes() {
    let response = egress_stream_failed_response("é");
    let body = "502 Bad Gateway - Egress stream failed: é\n";
    assert!(response.contains(&format!("Content-Length: {}\r\n", body.len())));
    assert!(response.contains("X-DuoTunnel-Reject: egress-stream-failed\r\n\r\n"));
    assert!(response.ends_with(body));
}

#[test]
fn open_failures_choose_the_next_step() {
    assert_eq!(
        entry_step_after_open_failure(OpenStreamFailure::TimedOut, Protocol::H1),
        EntryStep::TryNext
    );
    assert_eq!(
        entry_step_after_open_failure(OpenStreamFailure::Other, Protocol::Tcp),
        EntryStep::TryNext
    );
    assert_eq!(
        entry_step_after_open_failure(OpenStreamFailure::ConnectionLost, Protocol::H2),
        EntryStep::EvictAndTryNext
    );
    assert_eq!(
        entry_step_after_open_failure(OpenStreamFailure::ConnectionFatal, Protocol::H1),
        EntryStep::EvictAndFail
    );
    assert_eq!(
        entry_step_after_open_failure(OpenStreamFailure::RejectedOverloaded, Protocol::H1),
        EntryStep::ReplyOverloaded
    );
    assert_eq!(
        entry_step_after_open_failure(OpenStreamFailure::RejectedOverloaded, Protocol::WebSocket),
        EntryStep::CloseAndFail
    );
}

#[test]
fn login_failures_are_retryable_only_when_internal() {
    assert_eq!(
        AuthError::Internal("db down".into()).login_failure(),
        (true, "authentication unavailable")
    );
    assert_eq!(
        AuthError::InvalidToken.login_failure(),
        (false, "authentication failed")
    );
    assert_eq!(
        AuthError::TokenRevoked.login_failure(),
        (false, "authentication failed")
    );
}

#[test]
fn test_handle_entry_connection_tls_reject() {
    assert_eq!(blocked_host_reply(Protocol::Tcp), None);
    assert_eq!(blocked_host_reply(Protocol::Unknown), None);
}

#[test]
fn exhausted_attempts_answer_http_clients_only() {
    let reply = exhausted_reply(Protocol::H1, "timed out").unwrap();
    assert!(reply.ends_with("502 Bad Gateway - Egress stream failed: timed out\n"));
    assert_eq!(exhausted_reply(Protocol::H2, "timed out"), None);
}

#[test]
fn accept_worker_exit_is_only_normal_during_shutdown() {
    assert!(classify_accept_worker_exit(true, None).is_ok());
    let error = classify_accept_worker_exit(false, None).unwrap_err();
    assert!(error.contains("UnexpectedExit"));
    assert_eq!(
        classify_accept_worker_exit(true, Some("panicked")),
        Err("entry accept worker task failed: panicked".to_string())
    );
}
