use duotunnel::health::{ControlFreshness, ListenerHealth, ServerHealthFacts};

const MS: u64 = 1_000_000;

#[test]
fn hard_stale_control_rejects_new_work() {
    let mut health = ServerHealthFacts::with_thresholds(true, 5 * MS, 8 * MS, 10 * MS);
    health.mark_quic_bound(true);
    health.finish_config_apply(0);
    assert!(health.admits_new_work(0));

    let later = 12 * MS;

    assert_eq!(health.control_freshness(later), ControlFreshness::Stale);
    assert!(!health.is_ready(later));
    assert!(!health.admits_new_work(later));
}

#[test]
fn security_staleness_fences_auth_before_general_admission() {
    let mut health = ServerHealthFacts::with_thresholds(true, 2 * MS, 5 * MS, 20 * MS);
    health.finish_config_apply(0);
    assert!(health.admits_security_sensitive_work(0));

    let later = 8 * MS;

    assert!(!health.admits_security_sensitive_work(later));
    assert_ne!(health.control_freshness(later), ControlFreshness::Stale);
}

#[test]
fn config_apply_fences_security_sensitive_work() {
    let mut health = ServerHealthFacts::new(false);
    assert!(health.admits_security_sensitive_work(0));

    health.begin_config_apply();

    assert!(!health.admits_security_sensitive_work(0));
    health.fail_config_apply();
    assert!(health.admits_security_sensitive_work(0));
}

#[test]
fn held_security_fence_survives_failed_apply_until_success() {
    let mut health = ServerHealthFacts::new(false);
    health.begin_config_apply();
    health.hold_config_apply_fence();
    health.fail_config_apply();

    assert!(!health.admits_security_sensitive_work(0));
    assert!(!health.admits_new_work(0));

    health.finish_config_apply(1);
    assert!(health.admits_security_sensitive_work(1));
}

#[test]
fn failed_required_listener_blocks_readiness() {
    let mut health = ServerHealthFacts::new(false);
    health.mark_quic_bound(true);
    health.replace_listener_facts(
        &vec![(
            8080,
            ListenerHealth {
                desired_generation: 2,
                active_generation: None,
                error: Some("bind failed".to_string()),
            },
        )],
        None,
    );

    assert!(!health.is_ready(0));
}

#[test]
fn readiness_needs_components_and_live_listeners() {
    let mut health = ServerHealthFacts::new(false);
    health.mark_quic_bound(true);
    assert!(health.is_ready(0));
    health.set_required_components(&vec!["quic".to_string(), "admin".to_string()]);
    assert!(!health.is_ready(0));
    health.component_running("quic");
    health.component_running("admin");
    assert!(health.is_ready(0));

    health.replace_listener_facts(
        &vec![(
            8080,
            ListenerHealth { desired_generation: 3, active_generation: Some(3), error: None },
        )],
        None,
    );
    assert!(health.is_ready(0));
    health.listener_worker_exited(8080, 2);
    assert!(health.is_ready(0));
    health.listener_worker_exited(8080, 3);
    assert!(!health.is_ready(0));

    let affected = vec![8080];
    health.replace_listener_facts(&Vec::new(), Some(&affected));
    assert!(health.is_ready(0));

    health.component_stopped("admin");
    assert!(!health.is_ready(0));
    health.component_running("admin");
    health.component_failed("quic", "endpoint closed");
    assert!(!health.is_ready(0));
}

#[test]
fn freshness_degrades_then_goes_stale() {
    let mut health = ServerHealthFacts::with_thresholds(true, 10, 20, 30);
    assert_eq!(health.control_freshness(0), ControlFreshness::Stale);
    health.confirm_control_freshness(100);
    assert_eq!(health.control_freshness(109), ControlFreshness::Fresh);
    assert_eq!(health.control_freshness(110), ControlFreshness::Degraded);
    assert_eq!(health.control_freshness(130), ControlFreshness::Stale);
    health.restore_config_applied(5, 10);
    assert_eq!(health.control_freshness(1000), ControlFreshness::Stale);
    assert!(!health.admits_security_sensitive_work(1000));
}

use duotunnel::health::listener_health_snapshot;
use duotunnel::listener_table::{ListenerKind, ListenerTable};

#[test]
fn listener_health_follows_the_table_and_failures() {
    let mut table = ListenerTable::new();
    let a = table.begin_start(8080, ListenerKind::Http).unwrap();
    assert!(table.complete_start(8080, a.generation));
    let b = table.begin_start(8081, ListenerKind::Tcp).unwrap();
    let failures = vec![(8082u16, 5u64, "bind failed".to_string())];
    let facts = listener_health_snapshot(&table, &vec![8080, 8081, 8082, 8083], None, &failures);
    let get = |port: u16| facts.iter().find(|(p, _)| *p == port).map(|(_, h)| h.clone());
    assert_eq!(
        get(8080),
        Some(ListenerHealth { desired_generation: a.generation, active_generation: Some(a.generation), error: None })
    );
    assert_eq!(
        get(8081),
        Some(ListenerHealth { desired_generation: b.generation, active_generation: None, error: None })
    );
    assert_eq!(
        get(8082),
        Some(ListenerHealth { desired_generation: 5, active_generation: None, error: Some("bind failed".into()) })
    );
    assert_eq!(
        get(8083),
        Some(ListenerHealth { desired_generation: 0, active_generation: None, error: None })
    );
    let limited = listener_health_snapshot(&table, &vec![8080, 8081], Some(&vec![8081]), &failures);
    assert_eq!(limited.len(), 1);
    assert_eq!(limited[0].0, 8081);

    let mut health = ServerHealthFacts::new(false);
    health.mark_quic_bound(true);
    health.replace_listener_facts(&facts, None);
    assert!(!health.is_ready(0));
}
