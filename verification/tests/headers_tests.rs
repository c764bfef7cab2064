use duotunnel::headers::{
    content_length_from_headers, is_forwardable_trailer, remove_hop_by_hop_headers,
    sanitize_request_headers, sanitize_response_headers, HeaderList,
};
use hyper::header::HeaderName;

fn list(fields: &[(&str, &str)]) -> HeaderList {
    let mut headers = HeaderList::new();
    for (name, value) in fields {
        headers.append(name.to_string(), value.as_bytes().to_vec());
    }
    headers
}

#[test]
fn content_length_from_headers_rejects_conflicts() {
    let mut headers = HeaderList::new();
    headers.append("content-length".into(), b"7".to_vec());
    assert_eq!(content_length_from_headers(&headers), Some(7));

    headers.append("content-length".into(), b"7".to_vec());
    assert_eq!(content_length_from_headers(&headers), Some(7));

    headers.append("content-length".into(), b"8".to_vec());
    assert_eq!(content_length_from_headers(&headers), None);
}

#[test]
fn content_length_absent_or_malformed() {
    assert_eq!(content_length_from_headers(&list(&[("host", "a")])), None);
    assert_eq!(
        content_length_from_headers(&list(&[("content-length", "5, 5")])),
        Some(5)
    );
    assert_eq!(
        content_length_from_headers(&list(&[("content-length", "+5")])),
        None
    );
}

#[test]
fn response_sanitizer_strips_hop_by_hop_fields() {
    let mut headers = list(&[
        ("connection", "keep-alive, X-Foo"),
        ("keep-alive", "timeout=5"),
        ("x-foo", "leak"),
        ("upgrade", "websocket"),
        ("proxy-authenticate", "Basic"),
        ("transfer-encoding", "chunked"),
        ("content-length", "3"),
        ("server", "upstream"),
    ]);

    sanitize_response_headers(&mut headers);

    assert_eq!(headers.len(), 1);
    assert!(headers.get("server").is_some());
}

#[test]
fn request_sanitizer_keeps_te_trailers_only() {
    let mut headers = list(&[
        ("host", "example.com"),
        ("te", "Trailers"),
        ("accept", "*/*"),
        ("proxy-authorization", "Basic x"),
    ]);
    sanitize_request_headers(&mut headers);
    assert_eq!(headers.len(), 2);
    assert_eq!(headers.get("te"), Some(b"Trailers".to_vec()));
    assert!(headers.get("host").is_none());

    let mut headers = list(&[("te", "gzip"), ("accept", "*/*")]);
    sanitize_request_headers(&mut headers);
    assert_eq!(headers.len(), 1);
    assert!(headers.get("te").is_none());
}

#[test]
fn connection_listed_names_are_trimmed_and_validated() {
    let mut headers = list(&[
        ("connection", " X-A ,, bad name ,x-b"),
        ("x-a", "1"),
        ("x-b", "2"),
        ("x-c", "3"),
    ]);
    remove_hop_by_hop_headers(&mut headers);
    assert_eq!(headers.len(), 1);
    assert_eq!(headers.get("x-c"), Some(b"3".to_vec()));
}

#[test]
fn trailer_filter_rejects_framing_fields() {
    for name in [
        "content-length",
        "transfer-encoding",
        "te",
        "trailer",
        "host",
        "connection",
        "keep-alive",
        "upgrade",
        "proxy-authenticate",
        "set-cookie",
    ] {
        let header = HeaderName::from_bytes(name.as_bytes()).unwrap();
        assert!(
            !is_forwardable_trailer(header.as_str()),
            "{name} must not be relayed as a trailer"
        );
    }
    assert!(is_forwardable_trailer(
        HeaderName::from_static("grpc-status").as_str()
    ));
}
