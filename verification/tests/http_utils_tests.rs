use duotunnel::http_utils::{
    extract_host_from_http, extract_method_path_from_http, from_digits, parse_content_length,
};

#[test]
fn extracts_host_case_insensitively_with_port() {
    let req = b"GET / HTTP/1.1\r\nHOST: example.com:8443\r\n\r\n";
    assert_eq!(extract_host_from_http(req), Some("example.com:8443".to_string()));
}

#[test]
fn extracts_host_with_surrounding_whitespace() {
    let req = b"GET / HTTP/1.1\r\nHost: \t example.com  \r\n\r\n";
    assert_eq!(extract_host_from_http(req), Some("example.com".to_string()));
}

#[test]
fn extracts_host_from_partial_header_buffer() {
    let req = b"GET / HTTP/1.1\r\nHost: example.com";
    assert_eq!(extract_host_from_http(req), Some("example.com".to_string()));
}

#[test]
fn missing_host_returns_none() {
    let req = b"GET / HTTP/1.1\r\nUser-Agent: test\r\n\r\n";
    assert_eq!(extract_host_from_http(req), None);
}

#[test]
fn invalid_utf8_host_returns_none() {
    let req = b"GET / HTTP/1.1\r\nHost: \xff\r\n\r\n";
    assert_eq!(extract_host_from_http(req), None);
}

#[test]
fn invalid_utf8_non_host_header_does_not_block_host() {
    let req = b"GET / HTTP/1.1\r\nX-Raw: \xff\r\nHost: example.com\r\n\r\n";
    assert_eq!(extract_host_from_http(req), Some("example.com".to_string()));
}

#[test]
fn extracts_method_and_path() {
    let req = b"POST /submit?x=1 HTTP/1.1\r\nHost: example.com\r\n\r\n";
    assert_eq!(
        extract_method_path_from_http(req),
        Some(("POST".to_string(), "/submit?x=1".to_string()))
    );
}

#[test]
fn extracts_method_and_path_without_headers() {
    let req = b"GET /ready";
    assert_eq!(
        extract_method_path_from_http(req),
        Some(("GET".to_string(), "/ready".to_string()))
    );
}

#[test]
fn missing_path_returns_none() {
    let req = b"GET\r\nHost: example.com\r\n\r\n";
    assert_eq!(extract_method_path_from_http(req), None);
}

#[test]
fn content_length_rejects_signed_prefix() {
    assert_eq!(parse_content_length(b"+5"), None);
    assert_eq!(parse_content_length(b"-5"), None);
    assert_eq!(parse_content_length(b""), None);
    assert_eq!(parse_content_length(b"5x"), None);
    assert_eq!(parse_content_length(b"0x10"), None);
}

#[test]
fn content_length_accepts_repeated_identical_values() {
    assert_eq!(parse_content_length(b" 5 "), Some(5));
    assert_eq!(parse_content_length(b"5, 5"), Some(5));
    assert_eq!(parse_content_length(b"5, 6"), None);
    assert_eq!(parse_content_length(b"5,"), None);
}

#[test]
fn digits_parse_exactly_and_refuse_overflow() {
    assert_eq!(from_digits(b"0"), Some(0));
    assert_eq!(from_digits(b"18446744073709551615"), Some(u64::MAX));
    assert_eq!(from_digits(b"18446744073709551616"), None);
    assert_eq!(from_digits(b""), None);
    assert_eq!(from_digits(b"12a"), None);
}

#[test]
fn host_header_first_occurrence_wins() {
    let req = b"GET / HTTP/1.1\r\nHost: a.example\r\nHost: b.example\r\n\r\n";
    assert_eq!(extract_host_from_http(req), Some("a.example".to_string()));
}

#[test]
fn headers_end_at_blank_line_or_malformed_line() {
    let req = b"GET / HTTP/1.1\r\n\r\nHost: late.example\r\n";
    assert_eq!(extract_host_from_http(req), None);
    let req = b"GET / HTTP/1.1\r\nnot a header\r\nHost: late.example\r\n\r\n";
    assert_eq!(extract_host_from_http(req), None);
}

#[test]
fn host_line_without_request_line_is_not_a_request() {
    assert_eq!(extract_host_from_http(b"Host: example.com"), None);
    assert_eq!(extract_host_from_http(b"Host: example.com\r"), None);
    assert_eq!(extract_host_from_http(b"GET / HTTP/1.1\r\nX-A: b"), None);
    assert_eq!(
        extract_host_from_http(b"GET / HTTP/1.1\r\nHost: a.example"),
        Some("a.example".to_string())
    );
}
