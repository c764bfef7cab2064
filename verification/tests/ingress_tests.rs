use duotunnel::entry::Protocol;
use duotunnel::ingress::{
    after_open_failure, bad_gateway_response, declared_protocol, h1_forward_protocol,
    open_failed_message, passthrough_host, sniff_outcome, OpenRetry, MAX_OPEN_ATTEMPTS,
};

#[test]
fn open_retries_stop_after_the_last_attempt() {
    assert_eq!(after_open_failure(1, false), OpenRetry { unregister: false, give_up: false });
    assert_eq!(after_open_failure(2, true), OpenRetry { unregister: true, give_up: false });
    assert_eq!(
        after_open_failure(MAX_OPEN_ATTEMPTS, false),
        OpenRetry { unregister: false, give_up: true }
    );
}

#[test]
fn h1_forwarding_protocol_and_passthrough_host() {
    assert_eq!(h1_forward_protocol(Protocol::WebSocket), Protocol::WebSocket);
    assert_eq!(h1_forward_protocol(Protocol::Unknown), Protocol::H1);
    assert_eq!(h1_forward_protocol(Protocol::H2), Protocol::H1);
    assert_eq!(passthrough_host(Some("sni.example"), Some("auth.example")), Some("sni.example".to_string()));
    assert_eq!(passthrough_host(None, Some("auth.example")), Some("auth.example".to_string()));
    assert_eq!(passthrough_host(None, None), None);
}

#[test]
fn bad_gateway_answer_counts_body_bytes() {
    let msg = open_failed_message("timeout");
    assert_eq!(msg, "ProxyError: failed to open QUIC stream: timeout");
    assert_eq!(
        bad_gateway_response(&msg),
        format!(
            "HTTP/1.1 502 Bad Gateway\r\nContent-Type: text/plain\r\nContent-Length: {}\r\nConnection: close\r\n\r\n{}",
            msg.len(),
            msg
        )
    );
    let r = bad_gateway_response("é");
    assert!(r.contains("Content-Length: 2\r\n"));
}

#[test]
fn stream_protocol_is_declared_or_sniffed() {
    assert_eq!(declared_protocol(Some(Protocol::Tcp)), Some(Protocol::Tcp));
    assert_eq!(declared_protocol(Some(Protocol::Unknown)), None);
    assert_eq!(declared_protocol(None), None);
    assert_eq!(sniff_outcome(12, Protocol::H2), (Protocol::H2, true));
    assert_eq!(sniff_outcome(0, Protocol::H2), (Protocol::Unknown, false));
}
