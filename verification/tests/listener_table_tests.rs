use duotunnel::listener_table::{ListenerKind, ListenerState, ListenerTable};

#[test]
fn replacement_prepare_keeps_predecessor_active_until_commit() {
    let mut table = ListenerTable::new();
    let a = table.begin_start(8080, ListenerKind::Http).unwrap();
    assert!(table.complete_start(8080, a.generation));
    let b = table.begin_start(8080, ListenerKind::Tcp).unwrap();

    assert!(!table.complete_start(8080, a.generation));
    assert_eq!(
        b.predecessor.as_ref().map(|entry| entry.generation),
        Some(a.generation)
    );

    assert!(table.restore_predecessor(8080, b.generation, b.predecessor, true));
    let restored = table.get(8080).unwrap();
    assert_eq!(restored.generation, a.generation);
    assert_eq!(restored.state, ListenerState::Active);
}

#[test]
fn rollback_does_not_restore_a_drained_predecessor() {
    let mut table = ListenerTable::new();
    let active = table.begin_start(8083, ListenerKind::Http).unwrap();
    assert!(table.complete_start(8083, active.generation));
    let replacement = table.begin_start(8083, ListenerKind::Tcp).unwrap();

    // The predecessor's workers were stopped: it is no longer running.
    let restored = table.restore_predecessor(
        replacement.port,
        replacement.generation,
        replacement.predecessor,
        false,
    );

    assert!(!restored);
    assert!(table.get(8083).is_none());
}

#[test]
fn activation_failure_restores_live_predecessor() {
    let mut table = ListenerTable::new();
    let active = table.begin_start(8084, ListenerKind::Http).unwrap();
    assert!(table.complete_start(8084, active.generation));
    let replacement = table.begin_start(8084, ListenerKind::Tcp).unwrap();
    assert!(table.complete_start(8084, replacement.generation));

    let restored_flag = table.fail_start(
        replacement.port,
        replacement.generation,
        replacement.predecessor,
        true,
    );

    assert!(restored_flag);
    let restored = table.get(8084).unwrap();
    assert_eq!(restored.kind, ListenerKind::Http);
    assert_eq!(restored.state, ListenerState::Active);
    assert_eq!(restored.generation, active.generation);
}

#[test]
fn stale_completion_loses_when_newer_apply_races() {
    let mut table = ListenerTable::new();
    let a = table.begin_start(8081, ListenerKind::Http).unwrap();

    table.begin_drain(8081).unwrap();
    let c = table.begin_start(8081, ListenerKind::Http).unwrap();

    assert!(!table.complete_start(a.port, a.generation));
    assert!(table.complete_start(c.port, c.generation));
    let active = table.get(8081).unwrap();
    assert_eq!(active.generation, c.generation);
    assert_eq!(active.state, ListenerState::Active);
}

#[test]
fn shutdown_fences_future_starts_and_completions() {
    let mut table = ListenerTable::new();
    let reservation = table.begin_start(8082, ListenerKind::Http).unwrap();

    let drained = table.begin_shutdown();

    assert_eq!(drained.len(), 1);
    assert_eq!(drained[0], (8082, reservation.generation));
    assert!(table.is_shutting_down());
    assert!(!table.complete_start(8082, reservation.generation));
    assert!(table.begin_start(8082, ListenerKind::Http).is_none());
    assert!(table.get(8082).is_none());
}

#[test]
fn generations_start_at_one_and_increase() {
    let mut table = ListenerTable::new();
    let a = table.begin_start(9000, ListenerKind::Http).unwrap();
    let b = table.begin_start(9001, ListenerKind::Tcp).unwrap();
    assert_eq!(a.generation, 1);
    assert_eq!(b.generation, 2);
    assert!(a.predecessor.is_none());
}

#[test]
fn same_kind_on_serving_port_is_refused() {
    let mut table = ListenerTable::new();
    let a = table.begin_start(9002, ListenerKind::Http).unwrap();
    assert!(table.begin_start(9002, ListenerKind::Http).is_none());
    assert!(table.complete_start(9002, a.generation));
    assert!(table.begin_start(9002, ListenerKind::Http).is_none());
    let drain = table.begin_drain(9002).unwrap();
    assert_eq!(drain.drained_generation, a.generation);
    assert!(table.begin_drain(9002).is_none());
    // A draining port may be taken again by the same kind.
    let again = table.begin_start(9002, ListenerKind::Http).unwrap();
    assert_eq!(again.predecessor.unwrap().state, ListenerState::Draining);
}

#[test]
fn worker_handles_only_for_the_active_generation() {
    let mut table = ListenerTable::new();
    let a = table.begin_start(9003, ListenerKind::Tcp).unwrap();
    assert!(!table.accepts_worker_handles(9003, a.generation));
    assert!(table.is_current_start(9003, a.generation));
    assert!(table.complete_start(9003, a.generation));
    assert!(table.accepts_worker_handles(9003, a.generation));
    assert!(!table.accepts_worker_handles(9003, a.generation + 1));
    assert!(!table.remove_if_current(9003, a.generation, ListenerState::Starting));
    assert!(table.remove_if_current(9003, a.generation, ListenerState::Active));
    assert!(table.get(9003).is_none());
}

use duotunnel::listener_table::SyncPlan;

#[test]
fn multi_port_bind_failure_commits_no_listener_changes() {
    let mut table = ListenerTable::new();
    let first = table.begin_start(8084, ListenerKind::Http).unwrap();
    assert!(table.complete_start(first.port, first.generation));
    let second = table.begin_start(8085, ListenerKind::Http).unwrap();
    assert!(table.complete_start(second.port, second.generation));
    let desired = vec![(8084, ListenerKind::Tcp), (8085, ListenerKind::Tcp)];

    let plan = table.plan_sync(&desired, None);
    assert_eq!(plan.starts.len(), 2);
    assert!(plan.drains.is_empty());
    // The second bind fails: the plan is dropped and nothing is committed.
    drop(plan);

    let a = table.get(8084).unwrap();
    let b = table.get(8085).unwrap();
    assert_eq!((a.generation, a.kind, a.state), (first.generation, ListenerKind::Http, ListenerState::Active));
    assert_eq!((b.generation, b.kind, b.state), (second.generation, ListenerKind::Http, ListenerState::Active));
}

#[test]
fn sync_drains_undesired_and_starts_missing_listeners() {
    let mut table = ListenerTable::new();
    for port in [8080u16, 8081] {
        let r = table.begin_start(port, ListenerKind::Http).unwrap();
        assert!(table.complete_start(r.port, r.generation));
    }
    let desired = vec![(8080, ListenerKind::Http), (8082, ListenerKind::Tcp), (8082, ListenerKind::Http)];
    let plan = table.plan_sync(&desired, None);
    assert_eq!(plan.drains, vec![8081]);
    assert_eq!(plan.starts, vec![(8082, ListenerKind::Http)]);

    let (drained, started) = table.commit_sync(&plan);
    assert_eq!(drained.len(), 1);
    assert_eq!(drained[0].port, 8081);
    assert_eq!(started.len(), 1);
    assert_eq!(started[0].port, 8082);
    assert_eq!(table.get(8081).unwrap().state, ListenerState::Draining);
    assert_eq!(table.get(8082).unwrap().state, ListenerState::Starting);
    assert_eq!(table.get(8080).unwrap().state, ListenerState::Active);
}

#[test]
fn sync_is_limited_to_affected_ports_and_stops_at_shutdown() {
    let mut table = ListenerTable::new();
    let r = table.begin_start(9100, ListenerKind::Http).unwrap();
    assert!(table.complete_start(r.port, r.generation));
    let affected = vec![9101];
    let plan: SyncPlan = table.plan_sync(&vec![(9101, ListenerKind::Tcp)], Some(&affected));
    assert!(plan.drains.is_empty());
    assert_eq!(plan.starts, vec![(9101, ListenerKind::Tcp)]);

    table.begin_shutdown();
    let plan = table.plan_sync(&vec![(9102, ListenerKind::Tcp)], None);
    assert!(plan.drains.is_empty() && plan.starts.is_empty());
}
