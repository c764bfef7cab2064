use duotunnel::idempotency::{
    check_token_mutation, finish_mutation, fingerprint_of_json, record_for, replay_decision,
    ADMIN_MUTATION_FINGERPRINT_VERSION, AdminErrorKind, AdminMutationKind,
    AdminMutationError, AdminMutationResponse, CachedAdminResponse, ReplayDecision,
};

const GONE: &str = "request was committed but its bearer-token response is no longer available; use a new Idempotency-Key";

#[test]
fn durable_config_override_and_clear_replay() {
    let record = record_for(AdminMutationKind::ApplyConfigOverride, "fp-1", "ok");
    assert_eq!(record.operation, "apply_config_override");
    assert_eq!(record.response_encoding, "plaintext-v1");
    let replay = replay_decision(Some(&record), "fp-1", None);
    assert_eq!(
        replay,
        ReplayDecision::Respond(AdminMutationResponse { status: 200, body: "ok".into() })
    );
    let different = replay_decision(Some(&record), "fp-2", None);
    assert_eq!(
        different,
        ReplayDecision::Respond(AdminMutationResponse {
            status: 409,
            body: "Idempotency-Key was already used for a different request".into()
        })
    );
    assert_eq!(replay_decision(None, "fp-1", None), ReplayDecision::Execute);
}

#[test]
fn token_responses_replay_only_from_memory() {
    let record = record_for(AdminMutationKind::RotateToken, "fp", "dt_secret");
    assert_eq!(record.response_body, "");
    assert_eq!(record.response_encoding, "redacted-v1");
    let first = AdminMutationResponse { status: 200, body: "dt_secret".into() };
    let cached = CachedAdminResponse { fingerprint: "fp".into(), response: first.clone() };
    assert_eq!(
        replay_decision(Some(&record), "fp", Some(&cached)),
        ReplayDecision::Respond(first)
    );
    let other = CachedAdminResponse {
        fingerprint: "other".into(),
        response: AdminMutationResponse { status: 200, body: "x".into() },
    };
    assert_eq!(
        replay_decision(Some(&record), "fp", Some(&other)),
        ReplayDecision::Respond(AdminMutationResponse { status: 410, body: GONE.into() })
    );
    assert_eq!(
        replay_decision(Some(&record), "fp", None),
        ReplayDecision::Respond(AdminMutationResponse { status: 410, body: GONE.into() })
    );
}

#[test]
fn plaintext_token_records_are_gone_and_unknown_encodings_fail() {
    let mut record = record_for(AdminMutationKind::RevokeToken, "fp", "ok");
    assert_eq!(
        replay_decision(Some(&record), "fp", None),
        ReplayDecision::Respond(AdminMutationResponse { status: 200, body: "ok".into() })
    );
    record.operation = "create_client".into();
    assert_eq!(
        replay_decision(Some(&record), "fp", None),
        ReplayDecision::Respond(AdminMutationResponse { status: 410, body: GONE.into() })
    );
    record.response_encoding = "zstd".into();
    assert_eq!(
        replay_decision(Some(&record), "fp", None),
        ReplayDecision::UnsupportedEncoding(
            "unsupported persisted admin response encoding: zstd".into()
        )
    );
}

#[test]
fn token_mutations_follow_active_tokens() {
    assert!(check_token_mutation(AdminMutationKind::CreateClient, "alpha", 0).is_ok());
    let conflict = check_token_mutation(AdminMutationKind::CreateClient, "alpha", 1).unwrap_err();
    assert_eq!(conflict.kind, AdminErrorKind::Conflict);
    assert_eq!(conflict.status(), 409);
    assert_eq!(
        conflict.message,
        "client 'alpha' already has an active token; use 'rotate' to replace it"
    );
    let missing = check_token_mutation(AdminMutationKind::RevokeToken, "beta", 0).unwrap_err();
    assert_eq!(missing.kind, AdminErrorKind::NotFound);
    assert_eq!(missing.status(), 404);
    assert_eq!(missing.message, "no active token found for client 'beta'");
    assert!(check_token_mutation(AdminMutationKind::RotateToken, "beta", 2).is_ok());
    assert!(check_token_mutation(AdminMutationKind::ApplyConfigOverride, "x", 0).is_ok());
}

#[test]
fn operation_names() {
    assert_eq!(AdminMutationKind::ClearConfigOverride.operation_name(), "clear_config_override");
    assert_eq!(AdminMutationKind::CreateClient.operation_name(), "create_client");
    assert!(AdminMutationKind::CreateClient.is_sensitive());
    assert!(!AdminMutationKind::RevokeToken.is_sensitive());
}

fn create_client_json(name: &str) -> Vec<u8> {
    let mut mutation = std::collections::BTreeMap::new();
    mutation.insert("CreateClient", name);
    serde_json::to_vec(&(ADMIN_MUTATION_FINGERPRINT_VERSION, mutation)).unwrap()
}

#[test]
fn canonical_fingerprint_uses_typed_mutation() {
    let first = fingerprint_of_json(&create_client_json("alpha"));
    let same = fingerprint_of_json(&create_client_json("alpha"));
    let different = fingerprint_of_json(&create_client_json("beta"));
    assert_eq!(first, same);
    assert_ne!(first, different);
    assert_eq!(first.len(), 64);
    // The SHA-256 of the empty input, as a check of the digest itself.
    assert_eq!(
        fingerprint_of_json(b""),
        "e3b0c44298fc1c149afbf4c8996fb92427ae41e4649b934ca495991b7852b855"
    );
}

#[test]
fn a_committed_mutation_replays_and_a_failed_one_runs_again() {
    let commit = finish_mutation(AdminMutationKind::RevokeToken, "fp", Ok("ok".to_string())).unwrap();
    assert_eq!(commit.response, AdminMutationResponse { status: 200, body: "ok".into() });
    assert!(!commit.cache_response);
    assert_eq!(
        replay_decision(Some(&commit.record), "fp", None),
        ReplayDecision::Respond(commit.response.clone())
    );
    assert!(matches!(
        replay_decision(Some(&commit.record), "other", None),
        ReplayDecision::Respond(AdminMutationResponse { status: 409, .. })
    ));

    let token = finish_mutation(AdminMutationKind::CreateClient, "fp", Ok("dt_secret".to_string())).unwrap();
    assert!(token.cache_response);
    assert_eq!(token.record.response_body, "");
    let cached = CachedAdminResponse { fingerprint: "fp".into(), response: token.response.clone() };
    assert_eq!(
        replay_decision(Some(&token.record), "fp", Some(&cached)),
        ReplayDecision::Respond(AdminMutationResponse { status: 200, body: "dt_secret".into() })
    );

    let refused = AdminMutationError { kind: AdminErrorKind::NotFound, message: "no active token found for client 'a'".into() };
    assert_eq!(
        finish_mutation(AdminMutationKind::RotateToken, "fp", Err(refused.clone())),
        Err(refused)
    );
    assert_eq!(replay_decision(None, "another", None), ReplayDecision::Execute);
}
