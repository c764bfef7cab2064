//! The decisions of the server's ingress handlers for HTTP/1 and for TCP
//! passthrough, and of the proxy engine on a tunnel stream: what a request is forwarded as, how often opening a tunnel
//! stream is tried and when a client connection leaves the registry, and
//! the answer an HTTP/1 client gets when its request cannot be tunnelled.

use vstd::prelude::*;
use vstd::string::StringSliceAdditionalSpecFns;
use vstd::utf8::*;
use crate::entry::Protocol;
use crate::text::{decimal, push_decimal, push_str_chars, string_from_chars};

verus! {

/// How many times opening a tunnel stream is tried for one request.
pub const MAX_OPEN_ATTEMPTS: u32 = 3;

/// What follows a failed attempt to open a tunnel stream.
#[derive(Debug, Clone, Copy, PartialEq, Eq, Structural)]
pub struct OpenRetry {
    /// Take the selected client connection out of the registry.
    pub unregister: bool,
    /// Stop trying and fail the request.
    pub give_up: bool,
}

/// After attempt number `attempt` failed: a lost connection leaves the
/// registry; the request fails once the last attempt failed.
pub fn after_open_failure(attempt: u32, connection_lost: bool) -> (r: OpenRetry)
    ensures
        r.unregister == connection_lost,
        r.give_up == (attempt >= MAX_OPEN_ATTEMPTS),
{
    OpenRetry { unregister: connection_lost, give_up: attempt >= MAX_OPEN_ATTEMPTS }
}

/// The protocol a plaintext HTTP/1 ingress request is forwarded as: a
/// WebSocket upgrade stays one, anything else is HTTP/1.
pub fn h1_forward_protocol(sniffed: Protocol) -> (r: Protocol)
    ensures
        r == if sniffed == Protocol::WebSocket {
            Protocol::WebSocket
        } else {
            Protocol::H1
        },
{
    if sniffed == Protocol::WebSocket {
        Protocol::WebSocket
    } else {
        Protocol::H1
    }
}

/// The host a TCP passthrough connection names: its TLS server name, else
/// its HTTP authority, if either was sniffed.
pub fn passthrough_host(sni: Option<&str>, authority: Option<&str>) -> (r: Option<String>)
    ensures
        match sni {
            Some(s) => r matches Some(h) && h@ == s@,
            None => match authority {
                Some(a) => r matches Some(h) && h@ == a@,
                None => r is None,
            },
        },
{
    match sni {
        Some(s) => Some(s.to_owned()),
        None => match authority {
            Some(a) => Some(a.to_owned()),
            None => None,
        },
    }
}

/// The HTTP/1.1 502 answer carrying `message` as a plain-text body whose
/// length counts its UTF-8 bytes.
pub open spec fn bad_gateway_text(message: Seq<char>) -> Seq<char> {
    "HTTP/1.1 502 Bad Gateway\r\nContent-Type: text/plain\r\nContent-Length: "@ + decimal(
        encode_utf8(message).len(),
    ) + "\r\nConnection: close\r\n\r\n"@ + message
}

/// The answer to an HTTP/1 client whose request could not be tunnelled.
pub fn bad_gateway_response(message: &str) -> (r: String)
    ensures
        r@ == bad_gateway_text(message@),
{
    let mut out: Vec<char> = Vec::new();
    push_str_chars(&mut out, "HTTP/1.1 502 Bad Gateway\r\nContent-Type: text/plain\r\nContent-Length: ");
    let n = message.as_bytes().len();
    assert(n as nat == encode_utf8(message@).len());
    let n64 = n as u64;
    push_decimal(&mut out, n64);
    push_str_chars(&mut out, "\r\nConnection: close\r\n\r\n");
    push_str_chars(&mut out, message);
    assert(out@ =~= bad_gateway_text(message@));
    string_from_chars(out.as_slice())
}

/// The message an HTTP/1 client gets when the last attempt to open a
/// stream failed with `error`.
pub fn open_failed_message(error: &str) -> (r: String)
    ensures
        r@ == "ProxyError: failed to open QUIC stream: "@ + error@,
{
    let mut out: Vec<char> = Vec::new();
    push_str_chars(&mut out, "ProxyError: failed to open QUIC stream: ");
    push_str_chars(&mut out, error);
    string_from_chars(out.as_slice())
}

/// The protocol a tunnel stream is proxied as without sniffing: the one its
/// routing info names, unless that is `Unknown` or there is none, in which
/// case the stream is sniffed (`None`).
pub fn declared_protocol(routed: Option<Protocol>) -> (r: Option<Protocol>)
    ensures
        r == match routed {
            Some(p) => if p == Protocol::Unknown {
                None
            } else {
                Some(p)
            },
            None => None::<Protocol>,
        },
{
    match routed {
        Some(p) => if p == Protocol::Unknown {
            None
        } else {
            Some(p)
        },
        None => None,
    }
}

/// What sniffing a stream settles: the hinted protocol, and that the bytes
/// read are replayed, when any were read; `Unknown` and nothing to replay
/// otherwise.
pub fn sniff_outcome(bytes_read: usize, hint: Protocol) -> (r: (Protocol, bool))
    ensures
        r == if bytes_read > 0 {
            (hint, true)
        } else {
            (Protocol::Unknown, false)
        },
{
    if bytes_read > 0 {
        (hint, true)
    } else {
        (Protocol::Unknown, false)
    }
}

} // verus!
