use duotunnel::overload::{
    AdmissionConfigError, AdmissionController, AdmissionLimits, AdmissionRejectScope,
    OverloadLimits,
};

#[test]
fn pending_limit_defaults_to_a_fraction_of_stream_capacity() {
    let limits = OverloadLimits::resolve(100, None);
    assert_eq!(limits.max_pending_streams, 25);
}

#[test]
fn pending_limit_is_clamped_to_stream_capacity() {
    let limits = OverloadLimits::resolve(4, Some(100));
    assert_eq!(limits.max_pending_streams, 4);

    let limits = OverloadLimits::resolve(4, Some(0));
    assert_eq!(limits.max_pending_streams, 1);
}

#[test]
fn pending_limit_of_tiny_or_zero_capacity_is_one() {
    assert_eq!(OverloadLimits::resolve(0, None).max_pending_streams, 1);
    assert_eq!(OverloadLimits::resolve(3, None).max_pending_streams, 1);
    assert_eq!(OverloadLimits::resolve(0, Some(7)).max_pending_streams, 1);
    assert_eq!(OverloadLimits::resolve(u32::MAX, None).max_pending_streams, (u32::MAX / 4) as usize);
}

#[test]
fn rejects_invalid_group_configuration() {
    let limits = AdmissionLimits::new(Some(1)).with_group_limit("", 1);
    assert_eq!(
        AdmissionController::new(limits).err().unwrap().message(),
        AdmissionConfigError::EmptyGroupId.message()
    );
}

#[test]
fn permit_release_updates_global_and_group_counters() {
    let limits = AdmissionLimits::new(Some(2)).with_group_limit("blue", 1);
    let mut controller = AdmissionController::new(limits).ok().expect("valid limits");

    let blue = controller.try_acquire(Some("blue")).expect("blue slot");
    assert!(controller.try_acquire(Some("blue")).is_none());
    let other = controller.try_acquire(Some("other")).expect("global slot");

    assert_eq!(controller.stats().admitted, 2);
    assert_eq!(controller.stats().rejected, 1);
    assert_eq!(controller.stats().active, 2);
    assert_eq!(controller.group_stats("blue").unwrap().admitted, 1);
    assert_eq!(controller.group_stats("blue").unwrap().rejected, 1);
    assert_eq!(controller.group_stats("blue").unwrap().active, 1);

    blue.release(&mut controller);
    other.release(&mut controller);
    assert_eq!(controller.stats().active, 0);
    assert_eq!(controller.group_stats("blue").unwrap().active, 0);
}

#[test]
fn detailed_rejection_identifies_global_or_group_scope() {
    let mut group_limited =
        AdmissionController::new(AdmissionLimits::new(Some(2)).with_group_limit("blue", 1))
            .ok()
            .expect("valid limits");
    let _blue = group_limited.try_acquire_group("blue").ok().expect("first blue slot");
    assert_eq!(
        group_limited.try_acquire_group("blue").err().unwrap().scope,
        AdmissionRejectScope::Group
    );

    let mut global_limited =
        AdmissionController::new(AdmissionLimits::new(Some(1))).ok().expect("valid limits");
    let _first = global_limited.try_acquire_global().ok().expect("first global slot");
    assert_eq!(
        global_limited.try_acquire_global().err().unwrap().scope,
        AdmissionRejectScope::Global
    );

    let mut isolated_global =
        AdmissionController::new(AdmissionLimits::new(Some(1)).with_group_limit("blue", 1))
            .ok()
            .expect("valid limits");
    let _other = isolated_global.try_acquire_global().ok().expect("global slot");
    assert_eq!(
        isolated_global.try_acquire_group("blue").err().unwrap().scope,
        AdmissionRejectScope::Global
    );
    assert_eq!(isolated_global.group_stats("blue").unwrap().rejected, 0);
}

#[test]
fn explicit_permit_release_is_idempotent_and_reclaims_capacity() {
    let mut controller =
        AdmissionController::new(AdmissionLimits::new(Some(1))).ok().expect("valid limits");
    let permit = controller.try_acquire_global().ok().expect("first global slot");
    permit.release(&mut controller);

    assert_eq!(controller.stats().active, 0);
    let _second = controller
        .try_acquire_global()
        .ok()
        .expect("released slot should be reusable");
}

#[test]
fn configured_groups_are_isolated_under_global_capacity() {
    let limits = AdmissionLimits::new(Some(4)).with_group_limit("a", 2).with_group_limit("b", 2);
    let mut controller = AdmissionController::new(limits).ok().expect("valid limits");

    let a1 = controller.try_acquire(Some("a")).expect("a slot 1");
    let a2 = controller.try_acquire(Some("a")).expect("a slot 2");
    assert!(controller.try_acquire(Some("a")).is_none());

    let b1 = controller.try_acquire(Some("b")).expect("b slot 1");
    let b2 = controller.try_acquire(Some("b")).expect("b slot 2");
    assert!(controller.try_acquire(Some("b")).is_none());
    assert_eq!(controller.stats().active, 4);

    a1.release(&mut controller);
    a2.release(&mut controller);
    b1.release(&mut controller);
    b2.release(&mut controller);
    assert_eq!(controller.stats().active, 0);
}

#[test]
fn sequential_attempts_never_exceed_global_limit() {
    let mut controller =
        AdmissionController::new(AdmissionLimits::new(Some(4))).ok().expect("valid limits");
    let mut permits = Vec::new();
    for _ in 0..32 {
        if let Some(p) = controller.try_acquire(None) {
            permits.push(p);
        }
    }
    assert_eq!(permits.len(), 4);
    assert_eq!(controller.stats().admitted, 4);
    assert_eq!(controller.stats().rejected, 28);
    assert_eq!(controller.stats().active, 4);
    for p in permits {
        p.release(&mut controller);
    }
    assert_eq!(controller.stats().active, 0);
}

#[test]
fn zero_limit_rejects_every_attempt_and_later_group_entry_replaces_earlier() {
    let limits = AdmissionLimits::new(None).with_group_limit("g", 5).with_group_limit("g", 0);
    assert_eq!(limits.per_group.len(), 1);
    let mut controller = AdmissionController::new(limits).ok().expect("valid limits");
    assert_eq!(controller.try_acquire_group("g").err().unwrap().scope, AdmissionRejectScope::Group);
    assert_eq!(controller.stats().active, 0);
    assert_eq!(controller.stats().rejected, 1);
    assert!(controller.group_stats("missing").is_none());
}

#[test]
fn release_then_acquire_restores_active_counts() {
    let mut controller =
        AdmissionController::new(AdmissionLimits::new(Some(3)).with_group_limit("x", 2))
            .ok()
            .expect("valid limits");
    let before = controller.group_stats("x").unwrap().active;
    let p = controller.try_acquire_group("x").ok().expect("slot");
    assert_eq!(controller.group_stats("x").unwrap().active, before + 1);
    p.release(&mut controller);
    assert_eq!(controller.group_stats("x").unwrap().active, before);
    assert_eq!(controller.stats().active, 0);
    assert_eq!(controller.stats().admitted, 1);
}
