use house_automation::health::HealthState;

#[test]
fn readiness_requires_every_runtime_dependency() {
    let mut health = HealthState::new();
    health.set_database_migrated(true);
    health.set_mqtt_connected(true);
    assert!(!health.snapshot().ready());
    health.set_bridge_online(true);
    assert!(health.snapshot().ready());
    health.set_mqtt_connected(false);
    assert!(!health.snapshot().ready());
}

#[test]
fn status_code_tracks_not_ready_ready_not_ready() {
    let mut health = HealthState::default();
    assert_eq!(health.snapshot().status_code(), 503);
    health.set_database_migrated(true);
    health.set_mqtt_connected(true);
    health.set_bridge_online(true);
    assert_eq!(health.snapshot().status_code(), 200);
    health.set_mqtt_connected(false);
    assert_eq!(health.snapshot().status_code(), 503);
}

#[test]
fn snapshot_tells_the_last_reconciliation() {
    let mut health = HealthState::new();
    assert_eq!(
        health.snapshot().last_successful_reconciliation_unix_seconds,
        None
    );
    health.record_reconciliation(1_789_000_000);
    health.record_reconciliation(1_789_000_060);
    assert_eq!(
        health.snapshot().last_successful_reconciliation_unix_seconds,
        Some(1_789_000_060)
    );
}
