//! Idempotent admin mutations: what a request key already used gets back,
//! which mutations a client's tokens allow, and the record kept of a
//! committed mutation.

use vstd::prelude::*;
use crate::layer::str_is;
use crate::auth::{hex_encode, hex_lower, sha256, sha256_digest};
use crate::text::{push_str_chars, string_from_chars};

verus! {

/// The encoding of a stored response kept in full.
pub const PLAINTEXT_RESPONSE_ENCODING: &'static str = "plaintext-v1";

/// The encoding of a stored response whose body (a bearer token) is not
/// kept.
pub const REDACTED_RESPONSE_ENCODING: &'static str = "redacted-v1";

/// The version tag serialised ahead of a mutation when it is fingerprinted.
pub const ADMIN_MUTATION_FINGERPRINT_VERSION: u8 = 1;

/// The fingerprint of a mutation whose canonical serialisation (the
/// version tag and the mutation) is `json`: the lowercase hex SHA-256 of it.
pub fn fingerprint_of_json(json: &[u8]) -> (r: String)
    ensures
        r@ == hex_lower(sha256_digest(json@)),
{
    let digest = sha256(json);
    hex_encode(&digest)
}

/// The admin mutations.
#[derive(Debug, Clone, Copy, PartialEq, Eq, Structural)]
pub enum AdminMutationKind {
    ApplyConfigOverride,
    ClearConfigOverride,
    CreateClient,
    RotateToken,
    RevokeToken,
}

/// The name a mutation is recorded under.
pub open spec fn operation_name_spec(k: AdminMutationKind) -> Seq<char> {
    match k {
        AdminMutationKind::ApplyConfigOverride => "apply_config_override"@,
        AdminMutationKind::ClearConfigOverride => "clear_config_override"@,
        AdminMutationKind::CreateClient => "create_client"@,
        AdminMutationKind::RotateToken => "rotate_token"@,
        AdminMutationKind::RevokeToken => "revoke_token"@,
    }
}

/// Mutations whose response carries a bearer token.
pub open spec fn sensitive(k: AdminMutationKind) -> bool {
    k == AdminMutationKind::CreateClient || k == AdminMutationKind::RotateToken
}

impl AdminMutationKind {
    /// The name the mutation is recorded under.
    pub fn operation_name(&self) -> (r: &'static str)
        ensures
            r@ == operation_name_spec(*self),
    {
        match self {
            AdminMutationKind::ApplyConfigOverride => "apply_config_override",
            AdminMutationKind::ClearConfigOverride => "clear_config_override",
            AdminMutationKind::CreateClient => "create_client",
            AdminMutationKind::RotateToken => "rotate_token",
            AdminMutationKind::RevokeToken => "revoke_token",
        }
    }

    /// Whether the response carries a bearer token (kept only in memory).
    pub fn is_sensitive(&self) -> (r: bool)
        ensures
            r == sensitive(*self),
    {
        match self {
            AdminMutationKind::CreateClient => true,
            AdminMutationKind::RotateToken => true,
            _ => false,
        }
    }
}

/// An admin response: status and body.
#[derive(Debug, Clone, PartialEq, Eq)]
pub struct AdminMutationResponse {
    pub status: u16,
    pub body: String,
}

/// The record kept of a committed mutation under its request key.
#[derive(Debug, Clone, PartialEq, Eq)]
pub struct AdminIdempotencyRecord {
    pub fingerprint: String,
    pub operation: String,
    pub status_code: u16,
    pub response_body: String,
    pub response_encoding: String,
}

/// A response kept in memory for a sensitive mutation, with the
/// fingerprint of its request.
#[derive(Debug, Clone, PartialEq, Eq)]
pub struct CachedAdminResponse {
    pub fingerprint: String,
    pub response: AdminMutationResponse,
}

/// What a request gets when its key may have been used.
#[derive(Debug, Clone, PartialEq, Eq)]
pub enum ReplayDecision {
    /// The key is new: run the mutation.
    Execute,
    /// Answer without running it.
    Respond(AdminMutationResponse),
    /// The stored record has an unknown encoding: fail with this message.
    UnsupportedEncoding(String),
}

/// A replay decision by its contents: `(kind, status, text)`, the kind
/// being 0 (execute), 1 (respond) or 2 (unsupported encoding).
pub open spec fn replay_view(d: ReplayDecision) -> (int, u16, Seq<char>) {
    match d {
        ReplayDecision::Execute => (0, 0, Seq::empty()),
        ReplayDecision::Respond(r) => (1, r.status, r.body@),
        ReplayDecision::UnsupportedEncoding(m) => (2, 0, m@),
    }
}

/// The body answering a reused key whose token response is gone.
pub open spec fn gone_body() -> Seq<char> {
    "request was committed but its bearer-token response is no longer available; use a new Idempotency-Key"@
}

/// The replay of a key: new keys run; a key used for another request is
/// refused (409); a stored plaintext response is given back, but not for a
/// token-issuing mutation (410); a redacted one comes from memory when the
/// same request left it there, else 410; an unknown encoding fails.
pub open spec fn replay_spec(
    record: Option<(Seq<char>, Seq<char>, u16, Seq<char>, Seq<char>)>,
    fingerprint: Seq<char>,
    cached: Option<(Seq<char>, u16, Seq<char>)>,
) -> (int, u16, Seq<char>) {
    match record {
        None => (0, 0, Seq::empty()),
        Some((fp, operation, status, body, encoding)) => if fp != fingerprint {
            (1, 409, "Idempotency-Key was already used for a different request"@)
        } else if encoding == "plaintext-v1"@ {
            if operation == "create_client"@ || operation == "rotate_token"@ {
                (1, 410, gone_body())
            } else {
                (1, status, body)
            }
        } else if encoding == "redacted-v1"@ {
            match cached {
                Some((cfp, cstatus, cbody)) => if cfp == fingerprint {
                    (1, cstatus, cbody)
                } else {
                    (1, 410, gone_body())
                },
                None => (1, 410, gone_body()),
            }
        } else {
            (2, 0, "unsupported persisted admin response encoding: "@ + encoding)
        },
    }
}

/// A stored record by its contents.
pub open spec fn record_view(r: AdminIdempotencyRecord) -> (Seq<char>, Seq<char>, u16, Seq<char>, Seq<char>) {
    (r.fingerprint@, r.operation@, r.status_code, r.response_body@, r.response_encoding@)
}

/// A cached response by its contents.
pub open spec fn cached_view(c: CachedAdminResponse) -> (Seq<char>, u16, Seq<char>) {
    (c.fingerprint@, c.response.status, c.response.body@)
}

fn respond(status: u16, body: &str) -> (r: ReplayDecision)
    ensures
        replay_view(r) == (1int, status, body@),
{
    ReplayDecision::Respond(AdminMutationResponse { status, body: body.to_owned() })
}

/// Decides what a request with `fingerprint` gets when its key has the
/// stored `record` (if any) and the in-memory response `cached` (if any).
pub fn replay_decision(
    record: Option<&AdminIdempotencyRecord>,
    fingerprint: &str,
    cached: Option<&CachedAdminResponse>,
) -> (r: ReplayDecision)
    ensures
        replay_view(r) == replay_spec(
            match record {
                Some(x) => Some(record_view(*x)),
                None => None,
            },
            fingerprint@,
            match cached {
                Some(c) => Some(cached_view(*c)),
                None => None,
            },
        ),
{
    let record = match record {
        None => return ReplayDecision::Execute,
        Some(x) => x,
    };
    if !str_is(record.fingerprint.as_str(), fingerprint) {
        return respond(409, "Idempotency-Key was already used for a different request");
    }
    let gone = "request was committed but its bearer-token response is no longer available; use a new Idempotency-Key";
    if str_is(record.response_encoding.as_str(), "plaintext-v1") {
        if str_is(record.operation.as_str(), "create_client") || str_is(
            record.operation.as_str(),
            "rotate_token",
        ) {
            return respond(410, gone);
        }
        return respond(record.status_code, record.response_body.as_str());
    }
    if str_is(record.response_encoding.as_str(), "redacted-v1") {
        return match cached {
            Some(c) => if str_is(c.fingerprint.as_str(), fingerprint) {
                respond(c.response.status, c.response.body.as_str())
            } else {
                respond(410, gone)
            },
            None => respond(410, gone),
        };
    }
    let mut out: Vec<char> = Vec::new();
    push_str_chars(&mut out, "unsupported persisted admin response encoding: ");
    push_str_chars(&mut out, record.response_encoding.as_str());
    ReplayDecision::UnsupportedEncoding(string_from_chars(out.as_slice()))
}

/// The record kept of a mutation of `kind` committed under `fingerprint`
/// with response body `body`: status 200, and the body only when it holds
/// no token.
pub open spec fn stored_record(kind: AdminMutationKind, fingerprint: Seq<char>, body: Seq<char>) -> (
    Seq<char>,
    Seq<char>,
    u16,
    Seq<char>,
    Seq<char>,
) {
    (
        fingerprint,
        operation_name_spec(kind),
        200,
        if sensitive(kind) {
            Seq::empty()
        } else {
            body
        },
        if sensitive(kind) {
            "redacted-v1"@
        } else {
            "plaintext-v1"@
        },
    )
}

/// The record to keep of a mutation of `kind` committed under
/// `fingerprint` with response body `body`.
pub fn record_for(kind: AdminMutationKind, fingerprint: &str, body: &str) -> (r: AdminIdempotencyRecord)
    ensures
        record_view(r) == stored_record(kind, fingerprint@, body@),
{
    let sensitive = kind.is_sensitive();
    AdminIdempotencyRecord {
        fingerprint: fingerprint.to_owned(),
        operation: kind.operation_name().to_owned(),
        status_code: 200,
        response_body: if sensitive {
            String::new()
        } else {
            body.to_owned()
        },
        response_encoding: if sensitive {
            REDACTED_RESPONSE_ENCODING.to_owned()
        } else {
            PLAINTEXT_RESPONSE_ENCODING.to_owned()
        },
    }
}

/// The scope admin request keys are recorded under.
pub const ADMIN_IDEMPOTENCY_SCOPE: &'static str = "admin";

/// A row to insert for a committed mutation: the scope and request key it
/// is found by, then what a later load of that key gives back.
#[derive(Debug, Clone, Copy, PartialEq, Eq)]
pub struct AdminIdempotencyInsert<'a> {
    pub scope: &'a str,
    pub request_key: &'a str,
    pub fingerprint: &'a str,
    pub operation: &'a str,
    pub status_code: u16,
    pub response_body: &'a str,
    pub response_encoding: &'a str,
}

/// The part of a row that a load gives back, by its contents.
pub open spec fn insert_view(i: AdminIdempotencyInsert) -> (Seq<char>, Seq<char>, u16, Seq<char>, Seq<char>) {
    (i.fingerprint@, i.operation@, i.status_code, i.response_body@, i.response_encoding@)
}

/// The row to insert when a mutation of `kind` committed under
/// `request_key` and `fingerprint` with response body `body`.
pub fn insert_for<'a>(
    kind: AdminMutationKind,
    request_key: &'a str,
    fingerprint: &'a str,
    body: &'a str,
) -> (r: AdminIdempotencyInsert<'a>)
    ensures
        r.scope@ == ADMIN_IDEMPOTENCY_SCOPE@,
        r.request_key@ == request_key@,
        insert_view(r) == stored_record(kind, fingerprint@, body@),
{
    proof {
        reveal_strlit("");
    }
    let sensitive = kind.is_sensitive();
    AdminIdempotencyInsert {
        scope: ADMIN_IDEMPOTENCY_SCOPE,
        request_key,
        fingerprint,
        operation: kind.operation_name(),
        status_code: 200,
        response_body: if sensitive {
            ""
        } else {
            body
        },
        response_encoding: if sensitive {
            REDACTED_RESPONSE_ENCODING
        } else {
            PLAINTEXT_RESPONSE_ENCODING
        },
    }
}

impl<'a> AdminIdempotencyInsert<'a> {
    /// The record a load of this row's key gives back.
    pub fn record(&self) -> (r: AdminIdempotencyRecord)
        ensures
            record_view(r) == insert_view(*self),
    {
        AdminIdempotencyRecord {
            fingerprint: self.fingerprint.to_owned(),
            operation: self.operation.to_owned(),
            status_code: self.status_code,
            response_body: self.response_body.to_owned(),
            response_encoding: self.response_encoding.to_owned(),
        }
    }
}

/// The kinds of refused admin mutation.
#[derive(Debug, Clone, Copy, PartialEq, Eq, Structural)]
pub enum AdminErrorKind {
    InvalidRequest,
    NotFound,
    Conflict,
}

/// A refused admin mutation.
#[derive(Debug, Clone, PartialEq, Eq)]
pub struct AdminMutationError {
    pub kind: AdminErrorKind,
    pub message: String,
}

/// The status a refused mutation is answered with.
pub open spec fn error_status(k: AdminErrorKind) -> u16 {
    match k {
        AdminErrorKind::InvalidRequest => 400,
        AdminErrorKind::NotFound => 404,
        AdminErrorKind::Conflict => 409,
    }
}

impl AdminMutationError {
    /// The status this refusal is answered with.
    pub fn status(&self) -> (r: u16)
        ensures
            r == error_status(self.kind),
    {
        match self.kind {
            AdminErrorKind::InvalidRequest => 400,
            AdminErrorKind::NotFound => 404,
            AdminErrorKind::Conflict => 409,
        }
    }
}

/// Whether a token mutation of `kind` on `client`, which has `active`
/// active tokens, may run: a client with an active token cannot be created
/// again, and a client without one cannot have it rotated or revoked.
pub open spec fn token_check_spec(kind: AdminMutationKind, client: Seq<char>, active: u64) -> Option<
    (AdminErrorKind, Seq<char>),
> {
    if kind == AdminMutationKind::CreateClient && active > 0 {
        Some(
            (
                AdminErrorKind::Conflict,
                "client '"@ + client + "' already has an active token; use 'rotate' to replace it"@,
            ),
        )
    } else if (kind == AdminMutationKind::RotateToken || kind == AdminMutationKind::RevokeToken)
        && active == 0 {
        Some((AdminErrorKind::NotFound, "no active token found for client '"@ + client + "'"@))
    } else {
        None
    }
}

/// Checks a token mutation of `kind` on `client` against its number of
/// active tokens.
pub fn check_token_mutation(kind: AdminMutationKind, client: &str, active: u64) -> (r: Result<
    (),
    AdminMutationError,
>)
    ensures
        match r {
            Ok(()) => token_check_spec(kind, client@, active) is None,
            Err(e) => token_check_spec(kind, client@, active) == Some((e.kind, e.message@)),
        },
{
    if kind == AdminMutationKind::CreateClient && active > 0 {
        let mut out: Vec<char> = Vec::new();
        push_str_chars(&mut out, "client '");
        push_str_chars(&mut out, client);
        push_str_chars(&mut out, "' already has an active token; use 'rotate' to replace it");
        return Err(
            AdminMutationError {
                kind: AdminErrorKind::Conflict,
                message: string_from_chars(out.as_slice()),
            },
        );
    }
    if (kind == AdminMutationKind::RotateToken || kind == AdminMutationKind::RevokeToken) && active
        == 0 {
        let mut out: Vec<char> = Vec::new();
        push_str_chars(&mut out, "no active token found for client '");
        push_str_chars(&mut out, client);
        push_str_chars(&mut out, "'");
        return Err(
            AdminMutationError {
                kind: AdminErrorKind::NotFound,
                message: string_from_chars(out.as_slice()),
            },
        );
    }
    Ok(())
}

/// What a mutation run under a new key leaves behind.
#[derive(Debug, Clone, PartialEq, Eq)]
pub struct MutationCommit {
    /// The answer: 200 and the mutation's body.
    pub response: AdminMutationResponse,
    /// The record kept under the key, committed with the mutation.
    pub record: AdminIdempotencyRecord,
    /// Whether the response is kept in memory (it holds a token).
    pub cache_response: bool,
}

/// The record a key holds after a mutation of `kind` ran under it with
/// `fingerprint`: the stored record when the mutation gave `Some(body)`,
/// none when it failed (the transaction is rolled back).
pub open spec fn committed_record(
    kind: AdminMutationKind,
    fingerprint: Seq<char>,
    outcome: Option<Seq<char>>,
) -> Option<(Seq<char>, Seq<char>, u16, Seq<char>, Seq<char>)> {
    match outcome {
        Some(body) => Some(stored_record(kind, fingerprint, body)),
        None => None,
    }
}

/// Ends a mutation of `kind` that ran under a new key with `fingerprint`:
/// a success is answered 200 with its body and keeps its record (and its
/// response in memory when it holds a token); a failure is answered with
/// its error and keeps nothing.
pub fn finish_mutation(
    kind: AdminMutationKind,
    fingerprint: &str,
    outcome: Result<String, AdminMutationError>,
) -> (r: Result<MutationCommit, AdminMutationError>)
    ensures
        match outcome {
            Ok(body) => r matches Ok(c) && c.response.status == 200 && c.response.body@ == body@
                && Some(record_view(c.record)) == committed_record(kind, fingerprint@, Some(body@))
                && c.cache_response == sensitive(kind),
            Err(e) => r == Err::<MutationCommit, AdminMutationError>(e) && committed_record(
                kind,
                fingerprint@,
                None,
            ) is None,
        },
{
    match outcome {
        Ok(body) => {
            let record = record_for(kind, fingerprint, body.as_str());
            Ok(
                MutationCommit {
                    response: AdminMutationResponse { status: 200, body },
                    record,
                    cache_response: kind.is_sensitive(),
                },
            )
        },
        Err(e) => Err(e),
    }
}

/// One request, then another with the same key: a mutation that committed
/// is not run again. The same request gets the first response back (from
/// the record when it held no token, from memory while the process keeps
/// it); another request under the key is refused with 409. A mutation that
/// failed left no record, so the next request under its key runs.
pub proof fn law_replay_across_calls(
    kind: AdminMutationKind,
    fingerprint: Seq<char>,
    body: Seq<char>,
    next_fingerprint: Seq<char>,
    cached: Option<(Seq<char>, u16, Seq<char>)>,
)
    ensures
        !sensitive(kind) ==> replay_spec(
            committed_record(kind, fingerprint, Some(body)),
            fingerprint,
            cached,
        ) == (1int, 200u16, body),
        sensitive(kind) ==> replay_spec(
            committed_record(kind, fingerprint, Some(body)),
            fingerprint,
            Some((fingerprint, 200u16, body)),
        ) == (1int, 200u16, body),
        next_fingerprint != fingerprint ==> replay_spec(
            committed_record(kind, fingerprint, Some(body)),
            next_fingerprint,
            cached,
        ) == (1int, 409u16, "Idempotency-Key was already used for a different request"@),
        replay_spec(committed_record(kind, fingerprint, None), next_fingerprint, cached) == (
            0int,
            0u16,
            Seq::<char>::empty(),
        ),
{
    if !sensitive(kind) {
        law_replay_returns_first_response(kind, fingerprint, body, cached);
    } else {
        reveal_strlit("plaintext-v1");
        reveal_strlit("redacted-v1");
    }
}

/// Replaying a request with its key and fingerprint after it committed
/// gives back the response it got the first time, when that response held
/// no token.
pub proof fn law_replay_returns_first_response(
    kind: AdminMutationKind,
    fingerprint: Seq<char>,
    body: Seq<char>,
    cached: Option<(Seq<char>, u16, Seq<char>)>,
)
    requires
        !sensitive(kind),
    ensures
        replay_spec(Some(stored_record(kind, fingerprint, body)), fingerprint, cached) == (
            1int,
            200u16,
            body,
        ),
{
    reveal_strlit("create_client");
    reveal_strlit("rotate_token");
    reveal_strlit("apply_config_override");
    reveal_strlit("clear_config_override");
    reveal_strlit("revoke_token");
    let op = operation_name_spec(kind);
    assert(op != "create_client"@ && op != "rotate_token"@) by {
        match kind {
            AdminMutationKind::ApplyConfigOverride => {
                assert(op.len() != "create_client"@.len());
                assert(op.len() != "rotate_token"@.len());
            },
            AdminMutationKind::ClearConfigOverride => {
                assert(op.len() != "create_client"@.len());
                assert(op.len() != "rotate_token"@.len());
            },
            AdminMutationKind::RevokeToken => {
                assert(op.len() != "create_client"@.len());
                assert(op[2] != "rotate_token"@[2]);
            },
            _ => {},
        }
    }
}

/// A token-issuing request replayed with its key and fingerprint gets the
/// response it got, while the process still holds it, and 410 otherwise;
/// it never runs twice.
pub proof fn law_token_replay_never_runs_twice(
    kind: AdminMutationKind,
    fingerprint: Seq<char>,
    body: Seq<char>,
    first: AdminMutationResponse,
)
    requires
        sensitive(kind),
    ensures
        replay_spec(
            Some(stored_record(kind, fingerprint, body)),
            fingerprint,
            Some((fingerprint, first.status, first.body@)),
        ) == (1int, first.status, first.body@),
        replay_spec(Some(stored_record(kind, fingerprint, body)), fingerprint, None) == (
            1int,
            410u16,
            gone_body(),
        ),
{
    reveal_strlit("plaintext-v1");
    reveal_strlit("redacted-v1");
}

/// A key already used is refused for a request with another fingerprint,
/// whatever was stored under it.
pub proof fn law_reused_key_conflicts(
    record: (Seq<char>, Seq<char>, u16, Seq<char>, Seq<char>),
    fingerprint: Seq<char>,
    cached: Option<(Seq<char>, u16, Seq<char>)>,
)
    requires
        record.0 != fingerprint,
    ensures
        replay_spec(Some(record), fingerprint, cached) == (
            1int,
            409u16,
            "Idempotency-Key was already used for a different request"@,
        ),
{
}

} // verus!
