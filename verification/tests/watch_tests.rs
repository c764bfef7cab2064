use duotunnel::ctld::{ConfigDelta, ConfigOperation, ConfigSnapshot, ControlRevision};
use duotunnel::model::EgressUpstreamDef;
use duotunnel::watch::{
    accept_delta, accept_snapshot, ack_decision, authorize, choose_watch_event, delta_candidate,
    tokens_equal, AckDecision, ApplyStatus, DeltaHashMismatch, WatchAckState, WatchSend,
};

fn rev(epoch: &str, sequence: u64) -> ControlRevision {
    ControlRevision { epoch: epoch.into(), sequence }
}

#[test]
fn watch_tokens_compare_exactly() {
    assert!(tokens_equal("secret", "secret"));
    assert!(!tokens_equal("secret", "secreT"));
    assert!(!tokens_equal("secret", "secret2"));
    assert!(authorize(None, None).is_ok());
    assert!(authorize(Some("x"), None).is_ok());
    assert!(authorize(Some("secret"), Some("secret")).is_ok());
    let refused = authorize(Some("wrong"), Some("secret")).unwrap_err();
    assert_eq!(refused.message(), "unauthorized watch request");
    assert!(authorize(None, Some("secret")).is_err());
    assert!(authorize(None, Some("")).is_ok());
}

#[test]
fn apply_responses_are_matched_to_the_sent_event() {
    let sent = rev("e1", 4);
    assert_eq!(
        ack_decision(ApplyStatus::ResyncRequired, &rev("x", 0), "h", None, &sent, "hash"),
        AckDecision::Resync
    );
    assert_eq!(
        ack_decision(ApplyStatus::Applied, &rev("e1", 4), "hash", None, &sent, "hash"),
        AckDecision::Accepted
    );
    assert_eq!(
        ack_decision(ApplyStatus::Duplicate, &rev("e1", 4), "hash", None, &sent, "hash"),
        AckDecision::Accepted
    );
    assert_eq!(
        ack_decision(ApplyStatus::Applied, &rev("e1", 5), "hash", None, &sent, "hash"),
        AckDecision::Mismatch
    );
    assert_eq!(
        ack_decision(ApplyStatus::Applied, &rev("e1", 4), "other", None, &sent, "hash"),
        AckDecision::Mismatch
    );
    assert_eq!(
        ack_decision(ApplyStatus::Rejected, &rev("e1", 4), "hash", Some("base mismatch"), &sent, "hash"),
        AckDecision::Rejected("server rejected config: base mismatch".into())
    );
    assert_eq!(
        ack_decision(ApplyStatus::Rejected, &rev("e1", 4), "hash", None, &sent, "hash"),
        AckDecision::Rejected("server rejected config: unspecified".into())
    );
}

#[test]
fn watch_sends_the_smaller_encoding_of_a_change() {
    assert_eq!(choose_watch_event("h1", "h1", 10, 100), WatchSend::Nothing);
    assert_eq!(choose_watch_event("h1", "h2", 10, 100), WatchSend::Delta);
    assert_eq!(choose_watch_event("h1", "h2", 100, 100), WatchSend::Snapshot);
    assert_eq!(choose_watch_event("h1", "h2", 200, 100), WatchSend::Snapshot);
}

fn snapshot(version: u64, upstreams: &[&str]) -> ConfigSnapshot {
    ConfigSnapshot {
        resource_version: version,
        ingress_listeners: vec![],
        client_groups: vec![],
        egress_upstreams: upstreams
            .iter()
            .map(|n| EgressUpstreamDef { name: n.to_string(), lb_policy: "rr".into(), servers: vec![] })
            .collect(),
        egress_vhost_rules: vec![],
        token_cache: vec![],
    }
}

#[test]
fn accepted_delta_becomes_the_acknowledged_state() {
    let mut state = WatchAckState {
        last_acked_snapshot: snapshot(1, &["a"]),
        last_acked_revision: rev("e", 1),
        last_acked_hash: "h1".into(),
    };
    let delta = ConfigDelta {
        base_revision: rev("e", 1),
        base_hash: "h1".into(),
        target_revision: rev("e", 2),
        target_hash: "h2".into(),
        operations: vec![ConfigOperation::UpsertEgressUpstream(EgressUpstreamDef {
            name: "b".into(),
            lb_policy: "rr".into(),
            servers: vec![],
        })],
    };
    let candidate = delta_candidate(&state.last_acked_snapshot, &delta).unwrap();
    assert_eq!(candidate, snapshot(2, &["a", "b"]));
    // A candidate whose hash differs from the delta's target fails the
    // connection and keeps the acknowledged state.
    assert_eq!(accept_delta(&mut state, &delta, "other", snapshot(2, &["a", "b"])), Err(DeltaHashMismatch));
    assert_eq!(state.last_acked_hash, "h1");
    assert_eq!(
        DeltaHashMismatch.message(),
        "generated delta target hash does not match the target snapshot"
    );
    assert_eq!(accept_delta(&mut state, &delta, "h2", snapshot(2, &["a", "b"])), Ok(()));
    assert_eq!(state.last_acked_revision, rev("e", 2));
    assert_eq!(state.last_acked_hash, "h2");
    assert_eq!(state.last_acked_snapshot, snapshot(2, &["a", "b"]));
    accept_snapshot(&mut state, &rev("e", 3), "h3", snapshot(3, &[]));
    assert_eq!(state.last_acked_revision, rev("e", 3));
    assert_eq!(state.last_acked_hash, "h3");
}
