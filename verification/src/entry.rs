//! The decisions of the egress entry listener: the plain-text answers it
//! sends an HTTP/1 client it cannot serve, and what it does after a failed
//! attempt to open a tunnel stream.

use vstd::prelude::*;
use vstd::string::StringSliceAdditionalSpecFns;
use vstd::utf8::*;
use crate::text::{decimal, push_decimal, push_str_chars, string_from_chars};

verus! {

/// A refusal in HTTP/1.1: `status` line, connection closed, a plain-text
/// body whose length counts its UTF-8 bytes, the `extra` header lines, and
/// the reason `tag` in `X-DuoTunnel-Reject`.
pub open spec fn reject_response_text(
    status: Seq<char>,
    extra: Seq<char>,
    tag: Seq<char>,
    body: Seq<char>,
) -> Seq<char> {
    "HTTP/1.1 "@ + status + "\r\nConnection: close\r\nContent-Type: text/plain\r\nContent-Length: "@
        + decimal(encode_utf8(body).len()) + "\r\n"@ + extra + "X-DuoTunnel-Reject: "@ + tag
        + "\r\n\r\n"@ + body
}

fn reject_response(status: &str, extra: &str, tag: &str, body: &str) -> (r: String)
    ensures
        r@ == reject_response_text(status@, extra@, tag@, body@),
{
    let mut out: Vec<char> = Vec::new();
    push_str_chars(&mut out, "HTTP/1.1 ");
    push_str_chars(&mut out, status);
    push_str_chars(
        &mut out,
        "\r\nConnection: close\r\nContent-Type: text/plain\r\nContent-Length: ",
    );
    let n = body.as_bytes().len();
    assert(n as nat == encode_utf8(body@).len());
    let n64 = n as u64;
    assert(n64 as nat == encode_utf8(body@).len());
    push_decimal(&mut out, n64);
    push_str_chars(&mut out, "\r\n");
    push_str_chars(&mut out, extra);
    push_str_chars(&mut out, "X-DuoTunnel-Reject: ");
    push_str_chars(&mut out, tag);
    push_str_chars(&mut out, "\r\n\r\n");
    push_str_chars(&mut out, body);
    assert(out@ =~= reject_response_text(status@, extra@, tag@, body@));
    string_from_chars(out.as_slice())
}

/// The answer to an HTTP/1 client whose target the egress allowlist
/// refuses.
pub fn no_egress_route_response() -> (r: String)
    ensures
        r@ == reject_response_text(
            "502 Bad Gateway"@,
            ""@,
            "no-egress-route"@,
            "502 Bad Gateway - No Egress Route\n"@,
        ),
{
    reject_response("502 Bad Gateway", "", "no-egress-route", "502 Bad Gateway - No Egress Route\n")
}

/// The answer to an HTTP/1 client when the server's open-stream queue is
/// full: retry after a second.
pub fn open_queue_full_response() -> (r: String)
    ensures
        r@ == reject_response_text(
            "503 Service Unavailable"@,
            "Retry-After: 1\r\n"@,
            "overload"@,
            "503 Service Unavailable - Open stream queue full\n"@,
        ),
{
    reject_response(
        "503 Service Unavailable",
        "Retry-After: 1\r\n",
        "overload",
        "503 Service Unavailable - Open stream queue full\n",
    )
}

/// The answer to an HTTP/1 client when no tunnel stream could be opened,
/// carrying the last error.
pub fn egress_stream_failed_response(error: &str) -> (r: String)
    ensures
        r@ == reject_response_text(
            "502 Bad Gateway"@,
            ""@,
            "egress-stream-failed"@,
            "502 Bad Gateway - Egress stream failed: "@ + error@ + "\n"@,
        ),
{
    let mut b: Vec<char> = Vec::new();
    push_str_chars(&mut b, "502 Bad Gateway - Egress stream failed: ");
    push_str_chars(&mut b, error);
    push_str_chars(&mut b, "\n");
    let body = string_from_chars(b.as_slice());
    reject_response("502 Bad Gateway", "", "egress-stream-failed", body.as_str())
}

/// The protocol sniffed on an entry connection.
#[derive(Debug, Clone, Copy, PartialEq, Eq, Structural)]
pub enum Protocol {
    H1,
    H2,
    WebSocket,
    Tcp,
    Unknown,
}

/// What an entry connection whose target the allowlist refuses gets: the
/// refusal in HTTP/1, otherwise nothing before the stream is closed.
pub fn blocked_host_reply(protocol: Protocol) -> (r: Option<String>)
    ensures
        match r {
            Some(text) => protocol == Protocol::H1 && text@ == reject_response_text(
                "502 Bad Gateway"@,
                ""@,
                "no-egress-route"@,
                "502 Bad Gateway - No Egress Route\n"@,
            ),
            None => protocol != Protocol::H1,
        },
{
    if protocol == Protocol::H1 {
        Some(no_egress_route_response())
    } else {
        None
    }
}

/// What an entry connection gets when no pooled connection could open a
/// stream: the last error in HTTP/1 (the connection then ends normally),
/// otherwise nothing (the error is returned).
pub fn exhausted_reply(protocol: Protocol, last_error: &str) -> (r: Option<String>)
    ensures
        match r {
            Some(text) => protocol == Protocol::H1 && text@ == reject_response_text(
                "502 Bad Gateway"@,
                ""@,
                "egress-stream-failed"@,
                "502 Bad Gateway - Egress stream failed: "@ + last_error@ + "\n"@,
            ),
            None => protocol != Protocol::H1,
        },
{
    if protocol == Protocol::H1 {
        Some(egress_stream_failed_response(last_error))
    } else {
        None
    }
}

/// Why opening a tunnel stream on a pooled connection failed.
#[derive(Debug, Clone, Copy, PartialEq, Eq, Structural)]
pub enum OpenStreamFailure {
    TimedOut,
    RejectedOverloaded,
    ConnectionLost,
    ConnectionFatal,
    Other,
}

/// What the entry listener does after a failed open.
#[derive(Debug, Clone, Copy, PartialEq, Eq, Structural)]
pub enum EntryStep {
    /// Try the next pooled connection.
    TryNext,
    /// Evict the connection from the pool, then try the next.
    EvictAndTryNext,
    /// Evict the connection from the pool and give up with the error.
    EvictAndFail,
    /// Send the client the queue-full answer and close.
    ReplyOverloaded,
    /// Close the client's stream and give up with the error.
    CloseAndFail,
}

/// The step after a failed open: a timeout or another error moves on to
/// the next connection; a lost connection is evicted first; a fatal one is
/// evicted and ends the attempt; an overloaded server is answered (HTTP/1)
/// or the client stream closed.
pub open spec fn entry_step_spec(failure: OpenStreamFailure, protocol: Protocol) -> EntryStep {
    match failure {
        OpenStreamFailure::TimedOut => EntryStep::TryNext,
        OpenStreamFailure::Other => EntryStep::TryNext,
        OpenStreamFailure::ConnectionLost => EntryStep::EvictAndTryNext,
        OpenStreamFailure::ConnectionFatal => EntryStep::EvictAndFail,
        OpenStreamFailure::RejectedOverloaded => if protocol == Protocol::H1 {
            EntryStep::ReplyOverloaded
        } else {
            EntryStep::CloseAndFail
        },
    }
}

/// What to do after opening a tunnel stream failed with `failure` on a
/// connection speaking `protocol`.
pub fn entry_step_after_open_failure(failure: OpenStreamFailure, protocol: Protocol) -> (r: EntryStep)
    ensures
        r == entry_step_spec(failure, protocol),
{
    match failure {
        OpenStreamFailure::TimedOut => EntryStep::TryNext,
        OpenStreamFailure::Other => EntryStep::TryNext,
        OpenStreamFailure::ConnectionLost => EntryStep::EvictAndTryNext,
        OpenStreamFailure::ConnectionFatal => EntryStep::EvictAndFail,
        OpenStreamFailure::RejectedOverloaded => if protocol == Protocol::H1 {
            EntryStep::ReplyOverloaded
        } else {
            EntryStep::CloseAndFail
        },
    }
}

/// How an entry listener's accept worker stopped: on shutdown without a
/// task failure it is a normal exit; a failed task, or a stop before
/// shutdown, is an error with this message.
pub fn classify_accept_worker_exit(shutdown_requested: bool, task_error: Option<&str>) -> (r: Result<
    (),
    String,
>)
    ensures
        match task_error {
            Some(e) => r is Err && r->Err_0@ == "entry accept worker task failed: "@ + e@,
            None => if shutdown_requested {
                r is Ok
            } else {
                r is Err && r->Err_0@ == "UnexpectedExit: entry accept worker stopped before shutdown"@
            },
        },
{
    match task_error {
        Some(e) => {
            let mut out: Vec<char> = Vec::new();
            push_str_chars(&mut out, "entry accept worker task failed: ");
            push_str_chars(&mut out, e);
            Err(string_from_chars(out.as_slice()))
        },
        None => if shutdown_requested {
            Ok(())
        } else {
            Err("UnexpectedExit: entry accept worker stopped before shutdown".to_owned())
        },
    }
}

} // verus!
