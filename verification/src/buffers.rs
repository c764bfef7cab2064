//! Buffer sizes of the proxy paths: their bounds, how configured values are
//! brought into them, and the checks that report values outside them.

use vstd::prelude::*;
use crate::text::{decimal, push_str_chars, push_decimal, string_from_chars};

verus! {

pub const DEFAULT_RELAY_BUF_SIZE: usize = 65536;
pub const MIN_RELAY_BUF_SIZE: usize = 4096;
pub const MIN_PEEK_BUF_SIZE: usize = 1024;
pub const MAX_PEEK_BUF_SIZE: usize = 1048576;
pub const MIN_HTTP_HEADER_BUF_SIZE: usize = 1024;
pub const MAX_HTTP_HEADER_BUF_SIZE: usize = 65536;
pub const MIN_HTTP_BODY_CHUNK_SIZE: usize = 1024;
pub const MAX_HTTP_BODY_CHUNK_SIZE: usize = 1048576;
pub const MAX_RELAY_BUF_SIZE: usize = 4194304;

/// `value` brought into `lo..=hi`.
pub open spec fn clamped(value: usize, lo: usize, hi: usize) -> usize {
    if value < lo {
        lo
    } else if value > hi {
        hi
    } else {
        value
    }
}

fn clamp_usize(value: usize, lo: usize, hi: usize) -> (r: usize)
    requires
        lo <= hi,
    ensures
        r == clamped(value, lo, hi),
{
    if value < lo {
        lo
    } else if value > hi {
        hi
    } else {
        value
    }
}

/// The relay buffer size brought into its bounds.
pub fn normalize_relay_buf_size(value: usize) -> (r: usize)
    ensures
        r == clamped(value, MIN_RELAY_BUF_SIZE, MAX_RELAY_BUF_SIZE),
{
    clamp_usize(value, MIN_RELAY_BUF_SIZE, MAX_RELAY_BUF_SIZE)
}

/// The peek buffer size brought into its bounds.
pub fn normalize_peek_buf_size(value: usize) -> (r: usize)
    ensures
        r == clamped(value, MIN_PEEK_BUF_SIZE, MAX_PEEK_BUF_SIZE),
{
    clamp_usize(value, MIN_PEEK_BUF_SIZE, MAX_PEEK_BUF_SIZE)
}

/// The HTTP header buffer size brought into its bounds.
pub fn normalize_http_header_buf_size(value: usize) -> (r: usize)
    ensures
        r == clamped(value, MIN_HTTP_HEADER_BUF_SIZE, MAX_HTTP_HEADER_BUF_SIZE),
{
    clamp_usize(value, MIN_HTTP_HEADER_BUF_SIZE, MAX_HTTP_HEADER_BUF_SIZE)
}

/// The HTTP body chunk size brought into its bounds.
pub fn normalize_http_body_chunk_size(value: usize) -> (r: usize)
    ensures
        r == clamped(value, MIN_HTTP_BODY_CHUNK_SIZE, MAX_HTTP_BODY_CHUNK_SIZE),
{
    clamp_usize(value, MIN_HTTP_BODY_CHUNK_SIZE, MAX_HTTP_BODY_CHUNK_SIZE)
}

/// Buffer sizes the proxy paths run with.
#[derive(Debug, Clone, Copy, PartialEq, Eq, Structural)]
pub struct ProxyBufferParams {
    pub peek_buf_size: usize,
    pub http_header_buf_size: usize,
    pub http_body_chunk_size: usize,
    pub relay_buf_size: usize,
    pub sniff_timeout_ms: u64,
}

impl Default for ProxyBufferParams {
    fn default() -> (r: Self)
        ensures
            r == (ProxyBufferParams {
                peek_buf_size: 16384,
                http_header_buf_size: 8192,
                http_body_chunk_size: 8192,
                relay_buf_size: 65536,
                sniff_timeout_ms: 2500,
            }),
    {
        ProxyBufferParams {
            peek_buf_size: 16384,
            http_header_buf_size: 8192,
            http_body_chunk_size: 8192,
            relay_buf_size: 65536,
            sniff_timeout_ms: 2500,
        }
    }
}

/// The message for a value outside `min..=max`.
pub open spec fn range_message(name: Seq<char>, value: usize, min: usize, max: usize) -> Seq<char> {
    name + " must be between "@ + decimal(min as nat) + " and "@ + decimal(max as nat) + ", got "@
        + decimal(value as nat)
}

/// The first of peek, header, body and relay sizes outside its bounds, as
/// the error `ProxyBufferParams::validate` reports.
pub open spec fn params_check(p: ProxyBufferParams) -> Result<(), Seq<char>> {
    if !(MIN_PEEK_BUF_SIZE <= p.peek_buf_size <= MAX_PEEK_BUF_SIZE) {
        Err(range_message("peek_buf_size"@, p.peek_buf_size, MIN_PEEK_BUF_SIZE, MAX_PEEK_BUF_SIZE))
    } else if !(MIN_HTTP_HEADER_BUF_SIZE <= p.http_header_buf_size <= MAX_HTTP_HEADER_BUF_SIZE) {
        Err(
            range_message(
                "http_header_buf_size"@,
                p.http_header_buf_size,
                MIN_HTTP_HEADER_BUF_SIZE,
                MAX_HTTP_HEADER_BUF_SIZE,
            ),
        )
    } else if !(MIN_HTTP_BODY_CHUNK_SIZE <= p.http_body_chunk_size <= MAX_HTTP_BODY_CHUNK_SIZE) {
        Err(
            range_message(
                "http_body_chunk_size"@,
                p.http_body_chunk_size,
                MIN_HTTP_BODY_CHUNK_SIZE,
                MAX_HTTP_BODY_CHUNK_SIZE,
            ),
        )
    } else if !(MIN_RELAY_BUF_SIZE <= p.relay_buf_size <= MAX_RELAY_BUF_SIZE) {
        Err(range_message("relay_buf_size"@, p.relay_buf_size, MIN_RELAY_BUF_SIZE, MAX_RELAY_BUF_SIZE))
    } else {
        Ok(())
    }
}

/// A `Result` with a `String` error, by characters.
pub open spec fn result_view(r: Result<(), String>) -> Result<(), Seq<char>> {
    match r {
        Ok(()) => Ok(()),
        Err(m) => Err(m@),
    }
}

fn range_error(name: &str, value: usize, min: usize, max: usize) -> (r: String)
    ensures
        r@ == range_message(name@, value, min, max),
{
    let mut out: Vec<char> = Vec::new();
    push_str_chars(&mut out, name);
    push_str_chars(&mut out, " must be between ");
    push_decimal(&mut out, min as u64);
    push_str_chars(&mut out, " and ");
    push_decimal(&mut out, max as u64);
    push_str_chars(&mut out, ", got ");
    push_decimal(&mut out, value as u64);
    assert(out@ =~= range_message(name@, value, min, max));
    string_from_chars(out.as_slice())
}

impl ProxyBufferParams {
    /// Checks every size against its bounds, reporting the first one outside.
    pub fn validate(&self) -> (r: Result<(), String>)
        ensures
            result_view(r) == params_check(*self),
    {
        if !(MIN_PEEK_BUF_SIZE <= self.peek_buf_size && self.peek_buf_size <= MAX_PEEK_BUF_SIZE) {
            return Err(range_error("peek_buf_size", self.peek_buf_size, MIN_PEEK_BUF_SIZE, MAX_PEEK_BUF_SIZE));
        }
        if !(MIN_HTTP_HEADER_BUF_SIZE <= self.http_header_buf_size && self.http_header_buf_size
            <= MAX_HTTP_HEADER_BUF_SIZE) {
            return Err(
                range_error(
                    "http_header_buf_size",
                    self.http_header_buf_size,
                    MIN_HTTP_HEADER_BUF_SIZE,
                    MAX_HTTP_HEADER_BUF_SIZE,
                ),
            );
        }
        if !(MIN_HTTP_BODY_CHUNK_SIZE <= self.http_body_chunk_size && self.http_body_chunk_size
            <= MAX_HTTP_BODY_CHUNK_SIZE) {
            return Err(
                range_error(
                    "http_body_chunk_size",
                    self.http_body_chunk_size,
                    MIN_HTTP_BODY_CHUNK_SIZE,
                    MAX_HTTP_BODY_CHUNK_SIZE,
                ),
            );
        }
        if !(MIN_RELAY_BUF_SIZE <= self.relay_buf_size && self.relay_buf_size <= MAX_RELAY_BUF_SIZE) {
            return Err(range_error("relay_buf_size", self.relay_buf_size, MIN_RELAY_BUF_SIZE, MAX_RELAY_BUF_SIZE));
        }
        Ok(())
    }
}

/// Buffer sizes as configured; `ProxyBufferParams::from` brings them into
/// their bounds.
#[derive(Debug, Clone, Copy, PartialEq, Eq, Structural)]
pub struct ProxyBufferConfig {
    pub peek_buf_size: usize,
    /// Initial and maximum header sniff/parser capacity for HTTP/1.1 paths.
    pub http_header_buf_size: usize,
    /// Read chunk size for HTTP/1.1 request and response bodies.
    pub http_body_chunk_size: usize,
    /// Read buffer size for each direction of a relay.
    pub relay_buf_size: usize,
    pub sniff_timeout_ms: u64,
}

impl Default for ProxyBufferConfig {
    fn default() -> (r: Self)
        ensures
            r == (ProxyBufferConfig {
                peek_buf_size: 16384,
                http_header_buf_size: 8192,
                http_body_chunk_size: 8192,
                relay_buf_size: 65536,
                sniff_timeout_ms: 2500,
            }),
    {
        ProxyBufferConfig {
            peek_buf_size: 16384,
            http_header_buf_size: 8192,
            http_body_chunk_size: 8192,
            relay_buf_size: 65536,
            sniff_timeout_ms: 2500,
        }
    }
}

/// The parameters a configuration yields: every size brought into its
/// bounds, the sniff timeout as configured.
pub open spec fn normalized_params(c: ProxyBufferConfig) -> ProxyBufferParams {
    ProxyBufferParams {
        peek_buf_size: clamped(c.peek_buf_size, MIN_PEEK_BUF_SIZE, MAX_PEEK_BUF_SIZE),
        http_header_buf_size: clamped(
            c.http_header_buf_size,
            MIN_HTTP_HEADER_BUF_SIZE,
            MAX_HTTP_HEADER_BUF_SIZE,
        ),
        http_body_chunk_size: clamped(
            c.http_body_chunk_size,
            MIN_HTTP_BODY_CHUNK_SIZE,
            MAX_HTTP_BODY_CHUNK_SIZE,
        ),
        relay_buf_size: clamped(c.relay_buf_size, MIN_RELAY_BUF_SIZE, MAX_RELAY_BUF_SIZE),
        sniff_timeout_ms: c.sniff_timeout_ms,
    }
}

impl<'a> From<&'a ProxyBufferConfig> for ProxyBufferParams {
    fn from(c: &'a ProxyBufferConfig) -> (r: Self) {
        ProxyBufferParams {
            peek_buf_size: normalize_peek_buf_size(c.peek_buf_size),
            http_header_buf_size: normalize_http_header_buf_size(c.http_header_buf_size),
            http_body_chunk_size: normalize_http_body_chunk_size(c.http_body_chunk_size),
            relay_buf_size: normalize_relay_buf_size(c.relay_buf_size),
            sniff_timeout_ms: c.sniff_timeout_ms,
        }
    }
}

impl<'a> vstd::std_specs::convert::FromSpecImpl<&'a ProxyBufferConfig> for ProxyBufferParams {
    open spec fn obeys_from_spec() -> bool {
        true
    }

    open spec fn from_spec(c: &'a ProxyBufferConfig) -> Self {
        normalized_params(*c)
    }
}

/// The message for a configured size that normalization would change.
pub open spec fn outside_message(name: Seq<char>, value: usize) -> Seq<char> {
    name + " is outside the supported buffer range: "@ + decimal(value as nat)
}

/// The first of peek, header, body and relay sizes outside its bounds, as
/// the error `ProxyBufferConfig::validate` reports.
pub open spec fn config_check(c: ProxyBufferConfig) -> Result<(), Seq<char>> {
    if !(MIN_PEEK_BUF_SIZE <= c.peek_buf_size <= MAX_PEEK_BUF_SIZE) {
        Err(outside_message("peek_buf_size"@, c.peek_buf_size))
    } else if !(MIN_HTTP_HEADER_BUF_SIZE <= c.http_header_buf_size <= MAX_HTTP_HEADER_BUF_SIZE) {
        Err(outside_message("http_header_buf_size"@, c.http_header_buf_size))
    } else if !(MIN_HTTP_BODY_CHUNK_SIZE <= c.http_body_chunk_size <= MAX_HTTP_BODY_CHUNK_SIZE) {
        Err(outside_message("http_body_chunk_size"@, c.http_body_chunk_size))
    } else if !(MIN_RELAY_BUF_SIZE <= c.relay_buf_size <= MAX_RELAY_BUF_SIZE) {
        Err(outside_message("relay_buf_size"@, c.relay_buf_size))
    } else {
        Ok(())
    }
}

fn outside_error(name: &str, value: usize) -> (r: String)
    ensures
        r@ == outside_message(name@, value),
{
    let mut out: Vec<char> = Vec::new();
    push_str_chars(&mut out, name);
    push_str_chars(&mut out, " is outside the supported buffer range: ");
    push_decimal(&mut out, value as u64);
    assert(out@ =~= outside_message(name@, value));
    string_from_chars(out.as_slice())
}

impl ProxyBufferConfig {
    /// Checks that normalization would keep every size as configured,
    /// reporting the first one it would change.
    pub fn validate(&self) -> (r: Result<(), String>)
        ensures
            result_view(r) == config_check(*self),
    {
        let normalized = ProxyBufferParams::from(self);
        let checked = normalized.validate();
        proof {
            law_normalized_params_are_valid(*self);
        }
        if checked.is_err() {
            return checked;
        }
        if self.peek_buf_size != normalized.peek_buf_size {
            return Err(outside_error("peek_buf_size", self.peek_buf_size));
        }
        if self.http_header_buf_size != normalized.http_header_buf_size {
            return Err(outside_error("http_header_buf_size", self.http_header_buf_size));
        }
        if self.http_body_chunk_size != normalized.http_body_chunk_size {
            return Err(outside_error("http_body_chunk_size", self.http_body_chunk_size));
        }
        if self.relay_buf_size != normalized.relay_buf_size {
            return Err(outside_error("relay_buf_size", self.relay_buf_size));
        }
        Ok(())
    }
}

/// Parameters obtained from any configuration pass their own check.
pub proof fn law_normalized_params_are_valid(c: ProxyBufferConfig)
    ensures
        params_check(normalized_params(c)) == Ok::<(), Seq<char>>(()),
{
}

/// A configuration passes its check exactly when normalization keeps it.
pub proof fn law_config_valid_iff_unchanged(c: ProxyBufferConfig)
    ensures
        config_check(c) is Ok <==> ({
            let p = normalized_params(c);
            &&& p.peek_buf_size == c.peek_buf_size
            &&& p.http_header_buf_size == c.http_header_buf_size
            &&& p.http_body_chunk_size == c.http_body_chunk_size
            &&& p.relay_buf_size == c.relay_buf_size
        }),
{
}

} // verus!
