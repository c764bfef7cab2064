use duotunnel::ctld::ControlRevision;
use duotunnel::revision::{
    publish_backoff_secs, publish_decision, ControlRevisionRow, DegradedSource, DegradedState,
};

#[test]
fn degraded_sources_are_tracked_independently() {
    let mut state = DegradedState::new();
    state.set_source_degraded(DegradedSource::Yaml, true);
    state.set_source_degraded(DegradedSource::Sqlite, false);
    assert!(state.is_degraded());
    // A publish touches no degraded flag.
    assert!(state.is_degraded());
    state.set_source_degraded(DegradedSource::Yaml, false);
    assert!(!state.is_degraded());
}

#[test]
fn committed_source_clears_only_its_flag() {
    let mut state = DegradedState::new();
    state.set_source_degraded(DegradedSource::Yaml, true);
    state.set_source_degraded(DegradedSource::Coordinator, true);
    state.source_committed(DegradedSource::Yaml);
    assert!(!state.source_degraded(DegradedSource::Yaml));
    assert!(state.source_degraded(DegradedSource::Coordinator));
    assert!(state.is_degraded());
    state.set_source_degraded(DegradedSource::Coordinator, false);
    assert!(!state.is_degraded());
}

#[test]
fn revision_row_advances_and_checks_epoch() {
    let mut row = ControlRevisionRow::new("epoch-a");
    let initial = row.current();
    let initialized = row.commit_snapshot_hash("hash-a", None).unwrap();
    let advanced = row.commit_snapshot_hash("hash-b", Some("epoch-a")).unwrap();
    assert_eq!(initial, initialized);
    assert_eq!(initial.epoch, advanced.epoch);
    assert_eq!(advanced.sequence, initial.sequence + 1);
    assert_eq!(row.current(), advanced);
    let same = row.commit_snapshot_hash("hash-b", None).unwrap();
    assert_eq!(same, advanced);
    let refused = row.commit_snapshot_hash("hash-c", Some("epoch-b"));
    assert_eq!(
        refused,
        Err("control revision epoch changed while committing snapshot".to_string())
    );
    assert_eq!(row.current(), advanced);
}

#[test]
fn publish_installs_only_new_versions_of_its_epoch() {
    let rev = ControlRevision { epoch: "e".into(), sequence: 5 };
    assert_eq!(publish_decision("e", 4, &rev), Ok(true));
    assert_eq!(publish_decision("e", 5, &rev), Ok(false));
    assert_eq!(
        publish_decision("other", 4, &rev),
        Err("control revision epoch changed while service was running".to_string())
    );
}

#[test]
fn publish_backoff_doubles_up_to_a_cap() {
    let got: Vec<u64> = (0..8).map(publish_backoff_secs).collect();
    assert_eq!(got, vec![1, 2, 4, 8, 16, 32, 32, 32]);
    assert_eq!(publish_backoff_secs(u32::MAX), 32);
}
