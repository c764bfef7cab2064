use duotunnel::idempotency::{
    insert_for, record_for, AdminMutationKind, AdminMutationResponse, CachedAdminResponse,
    ReplayDecision, ADMIN_IDEMPOTENCY_SCOPE,
};
use duotunnel::response_cache::{
    remember_response, replay_for, AdminResponseCache, ADMIN_RESPONSE_CACHE_MAX_ENTRIES,
};

fn cached(fp: &str, body: &str) -> CachedAdminResponse {
    CachedAdminResponse {
        fingerprint: fp.into(),
        response: AdminMutationResponse { status: 200, body: body.into() },
    }
}

#[test]
fn cache_read_after_write_and_replace() {
    let mut cache = AdminResponseCache::new();
    assert_eq!(cache.len(), 0);
    assert!(cache.get("k1").is_none());
    cache.insert("k1".into(), cached("fp1", "dt_a"));
    assert_eq!(cache.get("k1"), Some(&cached("fp1", "dt_a")));
    cache.insert("k2".into(), cached("fp2", "dt_b"));
    cache.insert("k1".into(), cached("fp1", "dt_c"));
    assert_eq!(cache.len(), 2);
    assert_eq!(cache.get("k1"), Some(&cached("fp1", "dt_c")));
    assert_eq!(cache.get("k2"), Some(&cached("fp2", "dt_b")));
}

#[test]
fn cache_evicts_oldest_past_its_bound() {
    let mut cache = AdminResponseCache::with_max_entries(2);
    cache.insert("a".into(), cached("fa", "1"));
    cache.insert("b".into(), cached("fb", "2"));
    cache.insert("c".into(), cached("fc", "3"));
    assert_eq!(cache.len(), 2);
    assert!(cache.get("a").is_none());
    assert_eq!(cache.get("b"), Some(&cached("fb", "2")));
    assert_eq!(cache.get("c"), Some(&cached("fc", "3")));
    // Replacing a kept key evicts nothing.
    cache.insert("b".into(), cached("fb", "4"));
    assert_eq!(cache.len(), 2);
    assert_eq!(cache.get("c"), Some(&cached("fc", "3")));
}

#[test]
fn cache_default_bound_holds() {
    let mut cache = AdminResponseCache::new();
    for i in 0..(ADMIN_RESPONSE_CACHE_MAX_ENTRIES + 3) {
        cache.insert(format!("key-{i}"), cached("fp", "t"));
    }
    assert_eq!(cache.len(), ADMIN_RESPONSE_CACHE_MAX_ENTRIES);
    assert!(cache.get("key-0").is_none());
    assert!(cache.get("key-3").is_some());
}

#[test]
fn committed_token_response_replays_from_memory() {
    let mut cache = AdminResponseCache::new();
    let first = AdminMutationResponse { status: 200, body: "dt_secret".into() };
    remember_response(&mut cache, AdminMutationKind::CreateClient, "req-1", "fp", &first);
    let row = insert_for(AdminMutationKind::CreateClient, "req-1", "fp", "dt_secret");
    assert_eq!(row.scope, ADMIN_IDEMPOTENCY_SCOPE);
    assert_eq!(row.request_key, "req-1");
    assert_eq!(row.response_body, "");
    let record = row.record();
    assert_eq!(record, record_for(AdminMutationKind::CreateClient, "fp", "dt_secret"));
    assert_eq!(
        replay_for(Some(&record), "req-1", "fp", &cache),
        ReplayDecision::Respond(first.clone())
    );
    // Another key finds nothing in memory.
    assert_eq!(
        replay_for(Some(&record), "req-2", "fp", &cache),
        ReplayDecision::Respond(AdminMutationResponse {
            status: 410,
            body: "request was committed but its bearer-token response is no longer available; use a new Idempotency-Key".into(),
        })
    );
    // A mutation without a token is not kept in memory.
    remember_response(&mut cache, AdminMutationKind::RevokeToken, "req-3", "fp", &first);
    assert!(cache.get("req-3").is_none());
    assert_eq!(replay_for(None, "req-3", "fp", &cache), ReplayDecision::Execute);
}

#[test]
fn plaintext_rows_keep_their_body() {
    let row = insert_for(AdminMutationKind::ApplyConfigOverride, "req", "fp", "ok");
    assert_eq!(row.operation, "apply_config_override");
    assert_eq!(row.status_code, 200);
    assert_eq!(row.response_body, "ok");
    assert_eq!(row.response_encoding, "plaintext-v1");
}
