use std::collections::BTreeSet;

use house_automation::color::{ColorComparisonPolicy, ColorGamut};
use house_automation::double::Double;
use house_automation::reconcile::{
    Availability, CommandEntity, DeviceDefinition, DeviceId, DispatchAcceptance,
    DispatchCancellation, DispatchRegistrationOutcome, DispatchToken, EntityId, GroupDefinition,
    ReconcileAction, ReconcileError, RetryPolicy, TransportStatus,
};
use house_automation::reconciler::{DispatchClaim, Reconciler};
use house_automation::state::MonotonicTime;
use house_automation::value::{
    Brightness, Capabilities, Color, DeviceTarget, Kelvin, KelvinRange, LightTarget,
};

fn d(value: f64) -> Double {
    Double::from_bits(value.to_bits())
}

fn id(value: &str) -> DeviceId {
    DeviceId::new(value.to_owned()).unwrap()
}

fn entity(value: &str) -> EntityId {
    EntityId::new(value.to_owned()).unwrap()
}

fn capabilities() -> Capabilities {
    Capabilities {
        on_off: true,
        dimming: true,
        color_temperature: Some(KelvinRange::new(d(2200.0), d(4000.0)).unwrap()),
        color_xy: false,
        color_hs: false,
        input: false,
        occupancy: false,
        temperature: false,
        power_metering: false,
    }
}

fn target(brightness: Double) -> LightTarget {
    LightTarget {
        on: true,
        brightness: Some(Brightness::new(brightness).unwrap()),
        color_temperature: Some(Kelvin::new(d(2700.0)).unwrap()),
        color: None,
        transition_ms: Some(500),
    }
}

fn device_target(brightness: Double) -> DeviceTarget {
    capabilities().degrade(&target(brightness))
}

fn connected_reconciler(devices: Vec<DeviceDefinition>) -> Reconciler {
    let mut reconciler = Reconciler::new(devices, Vec::new(), retry_policy()).unwrap();
    let _ = connect_with_online_bridge(&mut reconciler, d(0.0));
    reconciler
}

fn connect_with_online_bridge(
    reconciler: &mut Reconciler,
    seconds: Double,
) -> Vec<ReconcileAction> {
    let mut actions = reconciler.broker_connected(at(seconds)).unwrap();
    let devices: Vec<_> = reconciler.ids.clone();
    for device in devices {
        actions.extend(
            reconciler
                .set_device_availability(&device, Availability::Online, at(seconds))
                .unwrap(),
        );
    }
    actions.extend(
        reconciler
            .set_bridge_availability(Availability::Online, at(seconds))
            .unwrap(),
    );
    actions
}

fn at(seconds: Double) -> MonotonicTime {
    MonotonicTime::from_seconds(seconds).unwrap()
}

fn retry_policy() -> RetryPolicy {
    RetryPolicy::new(d(2.0), 3).unwrap()
}

fn accept_operations(
    reconciler: &mut Reconciler,
    token: DispatchToken,
    operation_count: usize,
    now: MonotonicTime,
) {
    assert_eq!(
        reconciler
            .register_dispatch_plan(token, now, operation_count, 0)
            .unwrap(),
        DispatchRegistrationOutcome::Registered
    );
    for operation_index in 0..operation_count {
        let DispatchClaim::Ready(permit) = reconciler
            .claim_next_operation(token, operation_index)
            .unwrap()
        else {
            panic!("expected dispatch permit")
        };
        let outcome = permit.accepted(now).unwrap();
        if operation_index + 1 == operation_count {
            assert_eq!(outcome, DispatchAcceptance::BatchAccepted);
        }
    }
}

fn fail_first_operation(reconciler: &mut Reconciler, token: DispatchToken, now: MonotonicTime) {
    assert_eq!(
        reconciler.register_dispatch_plan(token, now, 1, 0).unwrap(),
        DispatchRegistrationOutcome::Registered
    );
    let DispatchClaim::Ready(permit) = reconciler.claim_next_operation(token, 0).unwrap()
    else {
        panic!("expected dispatch permit")
    };
    permit.transient_failure(now).unwrap();
}

fn colors_in_sync(desired: Color, observed: Color, policy: ColorComparisonPolicy) -> bool {
    policy.colors_in_sync(desired, observed)
}

#[test]
fn internal_identifiers_reject_external_topic_names() {
    for invalid in ["", "Kitchen", "kitchen/lamp", "-lamp", "lamp-"] {
        assert!(
            DeviceId::new(invalid.to_owned()).is_err(),
            "accepted device ID {invalid:?}"
        );
        assert!(
            EntityId::new(invalid.to_owned()).is_err(),
            "accepted entity ID {invalid:?}"
        );
    }
    assert_eq!(id("kitchen-lamp_1").as_str(), "kitchen-lamp_1");
    assert_eq!(entity("downstairs_lights").as_str(), "downstairs_lights");
}

#[test]
fn desired_change_publishes_once_and_observation_does_not_oscillate() {
    let lamp = id("lamp");
    let mut reconciler =
        connected_reconciler(vec![DeviceDefinition::new(lamp.clone(), capabilities())]);

    assert_eq!(
        reconciler
            .set_device_desired(&lamp, target(d(0.5)), at(d(1.0)))
            .unwrap(),
        vec![ReconcileAction::Command {
            token: DispatchToken { value: 1 },
            entity: CommandEntity::Device(lamp.clone()),
            target: device_target(d(0.5)),
        }]
    );
    assert!(
        reconciler
            .observe(&lamp, device_target(d(0.2)), at(d(1.1)))
            .unwrap()
            .is_empty()
    );
    assert!(
        reconciler
            .observe(&lamp, device_target(d(0.2)), at(d(1.2)))
            .unwrap()
            .is_empty()
    );
    assert!(
        reconciler
            .set_device_desired(&lamp, target(d(0.5)), at(d(1.3)))
            .unwrap()
            .is_empty()
    );
    assert!(!reconciler.device_state(&lamp).unwrap().in_sync());

    assert!(
        reconciler
            .observe(&lamp, device_target(d(0.5)), at(d(1.4)))
            .unwrap()
            .is_empty()
    );
    assert!(reconciler.device_state(&lamp).unwrap().in_sync());
}

#[test]
fn desired_change_already_satisfied_by_observation_does_not_publish() {
    let lamp = id("lamp");
    let mut reconciler =
        connected_reconciler(vec![DeviceDefinition::new(lamp.clone(), capabilities())]);
    reconciler
        .observe(&lamp, device_target(d(0.5)), at(d(1.0)))
        .unwrap();

    assert!(
        reconciler
            .set_device_desired(&lamp, target(d(0.5)), at(d(1.1)))
            .unwrap()
            .is_empty()
    );
    assert!(reconciler.device_state(&lamp).unwrap().in_sync());
    assert!(
        reconciler
            .device_state(&lamp)
            .unwrap()
            .pending_command()
            .is_none()
    );
    assert_eq!(reconciler.device_state(&lamp).unwrap().last_command(), None);
}

#[test]
fn offline_suppresses_commands_and_online_reconciles_latest_desired() {
    let lamp = id("lamp");
    let mut reconciler =
        connected_reconciler(vec![DeviceDefinition::new(lamp.clone(), capabilities())]);
    assert!(
        reconciler
            .set_device_availability(&lamp, Availability::Offline, at(d(1.0)))
            .unwrap()
            .is_empty()
    );
    assert!(
        reconciler
            .set_device_desired(&lamp, target(d(0.3)), at(d(1.1)))
            .unwrap()
            .is_empty()
    );
    assert_eq!(
        reconciler
            .set_device_availability(&lamp, Availability::Online, at(d(1.2)))
            .unwrap(),
        vec![ReconcileAction::Command {
            token: DispatchToken { value: 1 },
            entity: CommandEntity::Device(lamp),
            target: device_target(d(0.3)),
        }]
    );
}

#[test]
fn unknown_availability_remains_suppressed_until_online_is_confirmed() {
    let lamp = id("lamp");
    let mut reconciler =
        connected_reconciler(vec![DeviceDefinition::new(lamp.clone(), capabilities())]);
    reconciler
        .set_device_availability(&lamp, Availability::Offline, at(d(1.0)))
        .unwrap();
    reconciler
        .set_device_desired(&lamp, target(d(0.3)), at(d(1.1)))
        .unwrap();

    assert!(
        reconciler
            .set_device_availability(&lamp, Availability::Unknown, at(d(1.2)))
            .unwrap()
            .is_empty()
    );
    assert_eq!(
        reconciler
            .set_device_availability(&lamp, Availability::Online, at(d(1.3)))
            .unwrap(),
        vec![ReconcileAction::Command {
            token: DispatchToken { value: 1 },
            entity: CommandEntity::Device(lamp),
            target: device_target(d(0.3)),
        }]
    );
}

#[test]
fn unknown_availability_blocks_commands() {
    let lamp = id("lamp");
    let mut reconciler = Reconciler::new(
        vec![DeviceDefinition::new(lamp.clone(), capabilities())],
        Vec::new(),
        retry_policy(),
    )
    .unwrap();
    reconciler.broker_connected(at(d(0.0))).unwrap();
    reconciler
        .set_bridge_availability(Availability::Online, at(d(0.1)))
        .unwrap();
    assert_eq!(
        reconciler.device_state(&lamp).unwrap().availability(),
        Availability::Unknown
    );
    assert!(
        reconciler
            .set_device_desired(&lamp, target(d(0.4)), at(d(1.0)))
            .unwrap()
            .is_empty()
    );
}

#[test]
fn unknown_availability_invalidates_already_staged_commands() {
    let lamp = id("lamp");
    let mut reconciler =
        connected_reconciler(vec![DeviceDefinition::new(lamp.clone(), capabilities())]);
    let actions = reconciler
        .set_device_desired(&lamp, target(d(0.4)), at(d(1.0)))
        .unwrap();
    let ReconcileAction::Command { token, .. } = actions[0] else {
        unreachable!()
    };

    reconciler
        .set_device_availability(&lamp, Availability::Unknown, at(d(1.1)))
        .unwrap();

    assert!(matches!(
        reconciler.claim_next_operation(token, 0).unwrap(),
        DispatchClaim::Stale
    ));
}

#[test]
fn observed_state_matches_desired_without_echoing_transition_metadata() {
    let lamp = id("lamp");
    let mut reconciler =
        connected_reconciler(vec![DeviceDefinition::new(lamp.clone(), capabilities())]);
    reconciler
        .set_device_desired(&lamp, target(d(0.5)), at(d(1.0)))
        .unwrap();
    let mut observed = device_target(d(0.5));
    observed.transition_ms = None;

    reconciler.observe(&lamp, observed, at(d(1.1))).unwrap();

    assert!(reconciler.device_state(&lamp).unwrap().in_sync());
}

#[test]
fn protocol_quantization_does_not_create_false_divergence() {
    let lamp = id("lamp");
    let mut reconciler =
        connected_reconciler(vec![DeviceDefinition::new(lamp.clone(), capabilities())]);
    reconciler
        .set_device_desired(&lamp, target(d(0.6)), at(d(1.0)))
        .unwrap();
    let observed = DeviceTarget {
        on: Some(true),
        brightness: Some(Brightness::new(d(152.0 / 254.0)).unwrap()),
        color_temperature: Some(Kelvin::new(d(1_000_000.0 / 370.0)).unwrap()),
        color: None,
        transition_ms: None,
    };

    reconciler.observe(&lamp, observed, at(d(1.1))).unwrap();

    assert!(reconciler.device_state(&lamp).unwrap().in_sync());
    assert!(
        reconciler
            .device_state(&lamp)
            .unwrap()
            .pending_command()
            .is_none()
    );
}

#[test]
fn group_command_records_member_desires_without_immediate_fanout() {
    let left = id("left");
    let right = id("right");
    let group = entity("living_room");
    let definition = GroupDefinition::new(
        group.clone(),
        vec![right.clone(), left.clone()],
        capabilities(),
    )
    .unwrap();
    let mut reconciler = Reconciler::new(
        vec![
            DeviceDefinition::new(left.clone(), capabilities()),
            DeviceDefinition::new(right.clone(), capabilities()),
        ],
        vec![definition],
        retry_policy(),
    )
    .unwrap();
    let _ = connect_with_online_bridge(&mut reconciler, d(0.0));

    assert_eq!(
        reconciler
            .set_group_desired(&group, target(d(0.6)), at(d(1.0)))
            .unwrap(),
        vec![ReconcileAction::Command {
            token: DispatchToken { value: 1 },
            entity: CommandEntity::Group(group),
            target: device_target(d(0.6)),
        }]
    );
    assert_eq!(
        reconciler.device_state(&left).unwrap().desired(),
        Some(device_target(d(0.6)))
    );
    assert_eq!(
        reconciler.device_state(&right).unwrap().desired(),
        Some(device_target(d(0.6)))
    );
}

#[test]
fn clearing_a_group_keeps_what_its_members_want() {
    let left = id("left");
    let right = id("right");
    let group = entity("living_room");
    let definition = GroupDefinition::new(
        group.clone(),
        vec![left.clone(), right.clone()],
        capabilities(),
    )
    .unwrap();
    let mut reconciler = Reconciler::new(
        vec![
            DeviceDefinition::new(left.clone(), capabilities()),
            DeviceDefinition::new(right.clone(), capabilities()),
        ],
        vec![definition],
        retry_policy(),
    )
    .unwrap();
    let _ = connect_with_online_bridge(&mut reconciler, d(0.0));
    let _ = reconciler
        .set_group_desired(&group, target(d(0.6)), at(d(1.0)))
        .unwrap();

    let actions = reconciler.clear_group_desired(&group, at(d(2.0))).unwrap();

    assert_eq!(
        actions
            .iter()
            .map(|action| match action {
                ReconcileAction::Command { entity, .. } => entity.clone(),
                _ => panic!("only commands are expected"),
            })
            .collect::<Vec<_>>(),
        vec![
            CommandEntity::Device(left.clone()),
            CommandEntity::Device(right.clone())
        ]
    );
    for member in [&left, &right] {
        assert_eq!(
            reconciler.device_state(member).unwrap().desired(),
            Some(device_target(d(0.6)))
        );
    }
    assert!(reconciler
        .clear_group_desired(&entity("cellar"), at(d(2.0)))
        .is_err());
}

#[test]
fn offline_group_member_gets_per_device_fallback_on_recovery() {
    let left = id("left");
    let right = id("right");
    let group = entity("living_room");
    let mut reconciler = Reconciler::new(
        vec![
            DeviceDefinition::new(left.clone(), capabilities()),
            DeviceDefinition::new(right.clone(), capabilities()),
        ],
        vec![
            GroupDefinition::new(group.clone(), vec![left.clone(), right], capabilities())
                .unwrap(),
        ],
        retry_policy(),
    )
    .unwrap();
    let _ = connect_with_online_bridge(&mut reconciler, d(0.0));
    reconciler
        .set_device_availability(&left, Availability::Offline, at(d(1.0)))
        .unwrap();
    assert_eq!(
        reconciler
            .set_group_desired(&group, target(d(0.7)), at(d(1.1)))
            .unwrap()
            .len(),
        1
    );

    assert_eq!(
        reconciler
            .set_device_availability(&left, Availability::Online, at(d(1.2)))
            .unwrap(),
        vec![ReconcileAction::Command {
            token: DispatchToken { value: 2 },
            entity: CommandEntity::Device(left),
            target: device_target(d(0.7)),
        }]
    );
}

#[test]
fn group_command_waits_until_every_member_is_confirmed_online() {
    let left = id("left");
    let right = id("right");
    let group = entity("group");
    let mut reconciler = Reconciler::new(
        vec![
            DeviceDefinition::new(left.clone(), capabilities()),
            DeviceDefinition::new(right, capabilities()),
        ],
        vec![
            GroupDefinition::new(group, vec![left.clone(), id("right")], capabilities())
                .unwrap(),
        ],
        retry_policy(),
    )
    .unwrap();
    reconciler.broker_connected(at(d(0.0))).unwrap();
    reconciler
        .set_device_availability(&left, Availability::Online, at(d(0.1)))
        .unwrap();
    reconciler
        .set_bridge_availability(Availability::Online, at(d(0.2)))
        .unwrap();

    assert_eq!(
        reconciler
            .set_group_desired(&entity("group"), target(d(0.7)), at(d(0.3)))
            .unwrap(),
        vec![ReconcileAction::Command {
            token: DispatchToken { value: 1 },
            entity: CommandEntity::Device(left),
            target: device_target(d(0.7)),
        }]
    );
}

#[test]
fn broker_reconnect_resubscribes_requests_state_and_forces_deterministic_reconcile() {
    let lamp_b = id("lamp_b");
    let lamp_a = id("lamp_a");
    let mut reconciler = connected_reconciler(vec![
        DeviceDefinition::new(lamp_b.clone(), capabilities()),
        DeviceDefinition::new(lamp_a.clone(), capabilities()),
    ]);
    let _ = reconciler
        .set_device_desired(&lamp_b, target(d(0.8)), at(d(1.0)))
        .unwrap();
    let _ = reconciler
        .set_device_desired(&lamp_a, target(d(0.2)), at(d(1.1)))
        .unwrap();
    reconciler.broker_disconnected(at(d(2.0))).unwrap();
    assert_eq!(reconciler.transport_status(), TransportStatus::Disconnected);

    assert_eq!(
        reconciler.broker_connected(at(d(3.0))).unwrap(),
        vec![
            ReconcileAction::Resubscribe,
            ReconcileAction::RequestState(lamp_a.clone()),
            ReconcileAction::RequestState(lamp_b.clone()),
        ]
    );
    reconciler
        .set_device_availability(&lamp_b, Availability::Online, at(d(3.1)))
        .unwrap();
    reconciler
        .set_device_availability(&lamp_a, Availability::Online, at(d(3.1)))
        .unwrap();
    assert_eq!(
        reconciler
            .set_bridge_availability(Availability::Online, at(d(3.1)))
            .unwrap(),
        vec![
            ReconcileAction::Command {
                token: DispatchToken { value: 3 },
                entity: CommandEntity::Device(lamp_a),
                target: device_target(d(0.2)),
            },
            ReconcileAction::Command {
                token: DispatchToken { value: 4 },
                entity: CommandEntity::Device(lamp_b),
                target: device_target(d(0.8)),
            },
        ]
    );
}

#[test]
fn bridge_recovery_reconciles_group_first_then_ungrouped_devices() {
    let grouped = id("grouped");
    let ungrouped = id("ungrouped");
    let group = entity("group");
    let mut reconciler = Reconciler::new(
        vec![
            DeviceDefinition::new(grouped.clone(), capabilities()),
            DeviceDefinition::new(ungrouped.clone(), capabilities()),
        ],
        vec![
            GroupDefinition::new(group.clone(), vec![grouped.clone()], capabilities()).unwrap(),
        ],
        retry_policy(),
    )
    .unwrap();
    let _ = connect_with_online_bridge(&mut reconciler, d(0.0));
    let _ = reconciler
        .set_group_desired(&group, target(d(0.7)), at(d(1.0)))
        .unwrap();
    let _ = reconciler
        .set_device_desired(&ungrouped, target(d(0.3)), at(d(1.1)))
        .unwrap();
    reconciler
        .set_bridge_availability(Availability::Offline, at(d(1.2)))
        .unwrap();
    assert!(
        reconciler
            .set_group_desired(&group, target(d(0.8)), at(d(1.3)))
            .unwrap()
            .is_empty()
    );
    assert!(
        reconciler
            .set_device_desired(&ungrouped, target(d(0.4)), at(d(1.4)))
            .unwrap()
            .is_empty()
    );
    reconciler
        .set_device_availability(&grouped, Availability::Online, at(d(1.5)))
        .unwrap();
    reconciler
        .set_device_availability(&ungrouped, Availability::Online, at(d(1.5)))
        .unwrap();

    assert_eq!(
        reconciler
            .set_bridge_availability(Availability::Online, at(d(1.5)))
            .unwrap(),
        vec![
            ReconcileAction::Command {
                token: DispatchToken { value: 3 },
                entity: CommandEntity::Group(group),
                target: device_target(d(0.8)),
            },
            ReconcileAction::Command {
                token: DispatchToken { value: 4 },
                entity: CommandEntity::Device(ungrouped),
                target: device_target(d(0.4)),
            },
        ]
    );
}

#[test]
fn broker_connect_waits_for_bridge_online_before_sending_desired_state() {
    let lamp = id("lamp");
    let mut reconciler = Reconciler::new(
        vec![DeviceDefinition::new(lamp.clone(), capabilities())],
        Vec::new(),
        retry_policy(),
    )
    .unwrap();

    let connected = reconciler.broker_connected(at(d(0.0))).unwrap();
    assert!(connected.contains(&ReconcileAction::Resubscribe));
    assert!(
        connected
            .iter()
            .any(|action| matches!(action, ReconcileAction::RequestState(id) if id == &lamp))
    );
    assert!(
        !connected
            .iter()
            .any(|action| matches!(action, ReconcileAction::Command { .. }))
    );
    assert!(
        reconciler
            .set_device_desired(&lamp, target(d(0.5)), at(d(0.1)))
            .unwrap()
            .is_empty()
    );

    assert!(
        reconciler
            .set_bridge_availability(Availability::Online, at(d(0.2)))
            .unwrap()
            .is_empty()
    );
    assert_eq!(
        reconciler
            .set_device_availability(&lamp, Availability::Online, at(d(0.3)))
            .unwrap(),
        vec![ReconcileAction::Command {
            token: DispatchToken { value: 1 },
            entity: CommandEntity::Device(lamp),
            target: device_target(d(0.5)),
        }]
    );
}

#[test]
fn retained_bridge_online_cannot_race_a_retained_device_offline_report() {
    let lamp = id("lamp");
    let mut reconciler = Reconciler::new(
        vec![DeviceDefinition::new(lamp.clone(), capabilities())],
        Vec::new(),
        retry_policy(),
    )
    .unwrap();
    reconciler
        .set_device_desired(&lamp, target(d(0.5)), at(d(0.0)))
        .unwrap();
    reconciler.broker_connected(at(d(0.1))).unwrap();

    assert!(
        reconciler
            .set_bridge_availability(Availability::Online, at(d(0.2)))
            .unwrap()
            .is_empty()
    );
    assert!(
        reconciler
            .set_device_availability(&lamp, Availability::Offline, at(d(0.3)))
            .unwrap()
            .is_empty()
    );
}

#[test]
fn bridge_restart_requires_fresh_device_availability_before_reconcile() {
    let lamp = id("lamp");
    let mut reconciler =
        connected_reconciler(vec![DeviceDefinition::new(lamp.clone(), capabilities())]);
    reconciler
        .set_device_desired(&lamp, target(d(0.5)), at(d(1.0)))
        .unwrap();

    reconciler
        .set_bridge_availability(Availability::Offline, at(d(1.1)))
        .unwrap();
    assert_eq!(
        reconciler.device_state(&lamp).unwrap().availability(),
        Availability::Unknown
    );
    assert!(
        reconciler
            .set_bridge_availability(Availability::Online, at(d(1.2)))
            .unwrap()
            .is_empty()
    );
    assert_eq!(
        reconciler
            .set_device_availability(&lamp, Availability::Online, at(d(1.3)))
            .unwrap()
            .len(),
        1
    );
}

#[test]
fn repeated_bridge_online_report_does_not_duplicate_command() {
    let lamp = id("lamp");
    let mut reconciler =
        connected_reconciler(vec![DeviceDefinition::new(lamp.clone(), capabilities())]);
    assert_eq!(
        reconciler
            .set_device_desired(&lamp, target(d(0.5)), at(d(1.0)))
            .unwrap()
            .len(),
        1
    );

    assert!(
        reconciler
            .set_bridge_availability(Availability::Online, at(d(1.1)))
            .unwrap()
            .is_empty()
    );
}

#[test]
fn bounded_refresh_only_reissues_requested_devices() {
    let left = id("left");
    let right = id("right");
    let mut reconciler = connected_reconciler(vec![
        DeviceDefinition::new(left.clone(), capabilities()),
        DeviceDefinition::new(right.clone(), capabilities()),
    ]);
    reconciler
        .set_device_desired(&left, target(d(0.4)), at(d(1.0)))
        .unwrap();
    reconciler
        .set_device_desired(&right, target(d(0.6)), at(d(1.1)))
        .unwrap();

    assert_eq!(
        reconciler
            .force_reconcile_devices(&vec![right.clone()], at(d(2.0)))
            .unwrap(),
        vec![ReconcileAction::Command {
            token: DispatchToken { value: 3 },
            entity: CommandEntity::Device(right),
            target: device_target(d(0.6)),
        }]
    );
}

#[test]
fn restart_reacquires_state_and_reconciles_without_waiting_for_mismatch() {
    let lamp = id("lamp");
    let mut reconciler =
        connected_reconciler(vec![DeviceDefinition::new(lamp.clone(), capabilities())]);
    let _ = reconciler
        .set_device_desired(&lamp, target(d(0.5)), at(d(1.0)))
        .unwrap();
    let _ = reconciler
        .observe(&lamp, device_target(d(0.5)), at(d(1.1)))
        .unwrap();

    assert_eq!(
        reconciler.device_restarted(&lamp, at(d(1.2))).unwrap(),
        vec![
            ReconcileAction::RequestState(lamp.clone()),
            ReconcileAction::Command {
                token: DispatchToken { value: 2 },
                entity: CommandEntity::Device(lamp),
                target: device_target(d(0.5)),
            },
        ]
    );
}

#[test]
fn lost_command_retries_at_exact_deadline_then_stops_without_oscillation() {
    let lamp = id("lamp");
    let mut reconciler =
        connected_reconciler(vec![DeviceDefinition::new(lamp.clone(), capabilities())]);
    let first = ReconcileAction::Command {
        token: DispatchToken { value: 1 },
        entity: CommandEntity::Device(lamp.clone()),
        target: device_target(d(0.5)),
    };
    assert_eq!(
        reconciler
            .set_device_desired(&lamp, target(d(0.5)), at(d(1.0)))
            .unwrap(),
        vec![first]
    );
    accept_operations(&mut reconciler, DispatchToken { value: 1 }, 1, at(d(1.0)));
    let pending = reconciler
        .device_state(&lamp)
        .unwrap()
        .pending_command()
        .unwrap();
    assert_eq!(pending.attempts(), 1);
    assert_eq!(pending.deadline().seconds(), d(3.5));

    assert!(reconciler.retry_due(at(d(3.499))).unwrap().is_empty());
    assert_eq!(
        reconciler.retry_due(at(d(3.5))).unwrap(),
        vec![ReconcileAction::Command {
            token: DispatchToken { value: 2 },
            entity: CommandEntity::Device(lamp.clone()),
            target: device_target(d(0.5)),
        }]
    );
    assert_eq!(
        reconciler
            .device_state(&lamp)
            .unwrap()
            .pending_command()
            .unwrap()
            .attempts(),
        1
    );
    accept_operations(&mut reconciler, DispatchToken { value: 2 }, 1, at(d(3.5)));
    assert_eq!(
        reconciler
            .observe(&lamp, device_target(d(0.2)), at(d(3.6)))
            .unwrap(),
        Vec::new()
    );
    assert_eq!(
        reconciler.retry_due(at(d(6.0))).unwrap(),
        vec![ReconcileAction::Command {
            token: DispatchToken { value: 3 },
            entity: CommandEntity::Device(lamp.clone()),
            target: device_target(d(0.5)),
        }]
    );
    accept_operations(&mut reconciler, DispatchToken { value: 3 }, 1, at(d(6.0)));
    assert!(reconciler.retry_due(at(d(8.5))).unwrap().is_empty());
    let pending = reconciler
        .device_state(&lamp)
        .unwrap()
        .pending_command()
        .unwrap();
    assert_eq!(pending.attempts(), 3);
    assert_eq!(reconciler.next_deadline(), None);
    assert!(!reconciler.device_state(&lamp).unwrap().in_sync());
    assert!(
        reconciler
            .set_device_desired(&lamp, target(d(0.5)), at(d(8.6)))
            .unwrap()
            .is_empty()
    );
}

#[test]
fn matching_observation_cancels_pending_retry() {
    let lamp = id("lamp");
    let mut reconciler =
        connected_reconciler(vec![DeviceDefinition::new(lamp.clone(), capabilities())]);
    reconciler
        .set_device_desired(&lamp, target(d(0.5)), at(d(1.0)))
        .unwrap();
    accept_operations(&mut reconciler, DispatchToken { value: 1 }, 1, at(d(1.0)));

    reconciler
        .observe(&lamp, device_target(d(0.5)), at(d(1.1)))
        .unwrap();

    assert!(
        reconciler
            .device_state(&lamp)
            .unwrap()
            .pending_command()
            .is_none()
    );
    assert!(reconciler.retry_due(at(d(10.0))).unwrap().is_empty());
}

#[test]
fn partial_observations_merge_before_clearing_pending_retry() {
    let lamp = id("lamp");
    let mut reconciler =
        connected_reconciler(vec![DeviceDefinition::new(lamp.clone(), capabilities())]);
    reconciler
        .set_device_desired(&lamp, target(d(0.5)), at(d(1.0)))
        .unwrap();
    accept_operations(&mut reconciler, DispatchToken { value: 1 }, 1, at(d(1.0)));

    reconciler
        .observe(
            &lamp,
            DeviceTarget {
                on: Some(true),
                brightness: Some(Brightness::new(d(0.5)).unwrap()),
                color_temperature: None,
                color: None,
                transition_ms: None,
            },
            at(d(1.1)),
        )
        .unwrap();
    assert!(!reconciler.device_state(&lamp).unwrap().in_sync());

    reconciler
        .observe(
            &lamp,
            DeviceTarget {
                on: None,
                brightness: None,
                color_temperature: Some(Kelvin::new(d(2700.0)).unwrap()),
                color: None,
                transition_ms: None,
            },
            at(d(1.2)),
        )
        .unwrap();

    assert!(reconciler.device_state(&lamp).unwrap().in_sync());
    assert!(
        reconciler
            .device_state(&lamp)
            .unwrap()
            .pending_command()
            .is_none()
    );
}

#[test]
fn reconnect_and_availability_recovery_reset_retry_budget() {
    let lamp = id("lamp");
    let mut reconciler = Reconciler::new(
        vec![DeviceDefinition::new(lamp.clone(), capabilities())],
        Vec::new(),
        RetryPolicy::new(d(1.0), 2).unwrap(),
    )
    .unwrap();
    connect_with_online_bridge(&mut reconciler, d(0.0));
    let initial = reconciler
        .set_device_desired(&lamp, target(d(0.5)), at(d(1.0)))
        .unwrap();
    let ReconcileAction::Command { token, .. } = initial[0] else {
        unreachable!()
    };
    accept_operations(&mut reconciler, token, 1, at(d(1.0)));
    let retry = reconciler.retry_due(at(d(2.5))).unwrap();
    let ReconcileAction::Command { token, .. } = retry[0] else {
        unreachable!()
    };
    accept_operations(&mut reconciler, token, 1, at(d(2.5)));
    assert!(reconciler.retry_due(at(d(3.5))).unwrap().is_empty());

    reconciler.broker_disconnected(at(d(4.0))).unwrap();
    let reconnect = reconciler.broker_connected(at(d(5.0))).unwrap();
    assert!(
        !reconnect
            .iter()
            .any(|action| matches!(action, ReconcileAction::Command { .. }))
    );
    let recovered_bridge = reconciler
        .set_device_availability(&lamp, Availability::Online, at(d(5.0)))
        .and_then(|_| reconciler.set_bridge_availability(Availability::Online, at(d(5.0))))
        .unwrap();
    assert!(
        recovered_bridge
            .iter()
            .any(|action| matches!(action, ReconcileAction::Command { .. }))
    );
    let token = recovered_bridge
        .iter()
        .find_map(|action| match action {
            ReconcileAction::Command { token, .. } => Some(*token),
            _ => None,
        })
        .unwrap();
    accept_operations(&mut reconciler, token, 1, at(d(5.0)));
    assert_eq!(
        reconciler
            .device_state(&lamp)
            .unwrap()
            .pending_command()
            .unwrap()
            .attempts(),
        1
    );

    reconciler
        .set_device_availability(&lamp, Availability::Offline, at(d(5.1)))
        .unwrap();
    let recovered = reconciler
        .set_device_availability(&lamp, Availability::Online, at(d(5.2)))
        .unwrap();
    let ReconcileAction::Command { token, .. } = recovered[0] else {
        unreachable!()
    };
    accept_operations(&mut reconciler, token, 1, at(d(5.2)));
    assert_eq!(
        reconciler
            .device_state(&lamp)
            .unwrap()
            .pending_command()
            .unwrap()
            .attempts(),
        1
    );
}

#[test]
fn repeated_connected_notification_is_idempotent_but_reconnect_reconciles() {
    let lamp = id("lamp");
    let mut reconciler = Reconciler::new(
        vec![DeviceDefinition::new(lamp.clone(), capabilities())],
        Vec::new(),
        retry_policy(),
    )
    .unwrap();
    let initial = reconciler.broker_connected(at(d(0.0))).unwrap();
    assert!(initial.contains(&ReconcileAction::Resubscribe));
    reconciler
        .set_device_availability(&lamp, Availability::Online, at(d(0.1)))
        .unwrap();
    reconciler
        .set_bridge_availability(Availability::Online, at(d(0.1)))
        .unwrap();
    let staged = reconciler
        .set_device_desired(&lamp, target(d(0.5)), at(d(1.0)))
        .unwrap();
    let ReconcileAction::Command { token, .. } = staged[0] else {
        unreachable!()
    };

    assert!(reconciler.broker_connected(at(d(1.1))).unwrap().is_empty());
    assert!(reconciler.is_dispatch_token_valid(token));

    reconciler.broker_disconnected(at(d(1.2))).unwrap();
    let reconnect = reconciler.broker_connected(at(d(1.3))).unwrap();
    assert!(reconnect.contains(&ReconcileAction::Resubscribe));
    assert!(
        reconnect
            .iter()
            .any(|action| matches!(action, ReconcileAction::RequestState(id) if id == &lamp))
    );
    assert!(
        !reconnect
            .iter()
            .any(|action| matches!(action, ReconcileAction::Command { .. }))
    );
    assert!(
        reconciler
            .set_bridge_availability(Availability::Online, at(d(1.4)))
            .unwrap()
            .is_empty()
    );
    assert!(
        reconciler
            .set_device_availability(&lamp, Availability::Online, at(d(1.5)))
            .unwrap()
            .iter()
            .any(|action| matches!(action, ReconcileAction::Command { .. }))
    );
}

#[test]
fn reconnect_does_not_stage_empty_target_for_non_controllable_device() {
    let sensor = id("sensor");
    let no_controls = Capabilities {
        on_off: false,
        dimming: false,
        color_temperature: None,
        color_xy: false,
        color_hs: false,
        input: false,
        occupancy: true,
        temperature: true,
        power_metering: false,
    };
    let mut reconciler = Reconciler::new(
        vec![DeviceDefinition::new(sensor.clone(), no_controls)],
        Vec::new(),
        retry_policy(),
    )
    .unwrap();

    assert!(
        reconciler
            .set_device_desired(&sensor, target(d(0.5)), at(d(1.0)))
            .unwrap()
            .is_empty()
    );
    let connected = reconciler.broker_connected(at(d(2.0))).unwrap();
    assert!(
        !connected
            .iter()
            .any(|action| matches!(action, ReconcileAction::Command { .. }))
    );
}

#[test]
fn retry_policy_and_clock_failures_are_validated_and_atomic() {
    for (seconds, attempts) in [
        (d(0.0), 1),
        (d(-1.0), 1),
        (d(f64::NAN), 1),
        (d(f64::INFINITY), 1),
        (d(1.0), 0),
        (d(1.0), 11),
    ] {
        assert!(RetryPolicy::new(seconds, attempts).is_err());
    }
    for (acceptance, backoff) in [
        (d(0.0), d(1.0)),
        (d(-1.0), d(1.0)),
        (d(f64::NAN), d(1.0)),
        (d(1.0), d(0.0)),
        (d(1.0), d(f64::INFINITY)),
    ] {
        assert!(
            retry_policy()
                .with_dispatch_timing(acceptance, backoff)
                .is_err()
        );
    }

    let lamp = id("lamp");
    let mut reconciler =
        connected_reconciler(vec![DeviceDefinition::new(lamp.clone(), capabilities())]);
    reconciler
        .set_device_desired(&lamp, target(d(0.5)), at(d(1.0)))
        .unwrap();
    let before_regression = reconciler.copied();
    assert!(reconciler.retry_due(at(d(0.5))).is_err());
    assert_eq!(reconciler, before_regression);
}

fn on_only_capabilities() -> Capabilities {
    Capabilities {
        on_off: true,
        dimming: false,
        color_temperature: None,
        color_xy: false,
        color_hs: false,
        input: false,
        occupancy: false,
        temperature: false,
        power_metering: false,
    }
}

fn color_capabilities() -> Capabilities {
    Capabilities {
        color_xy: true,
        color_temperature: None,
        ..capabilities()
    }
}

#[test]
fn heterogeneous_group_sends_common_fields_once_and_only_missing_member_fields() {
    let color_lamp = id("color_lamp");
    let cct_lamp = id("cct_lamp");
    let switch = id("switch");
    let group = entity("mixed_group");
    let group_capabilities = Capabilities {
        color_temperature: None,
        ..capabilities()
    };
    let mut reconciler = Reconciler::new(
        vec![
            DeviceDefinition::new(color_lamp.clone(), color_capabilities()),
            DeviceDefinition::new(cct_lamp.clone(), capabilities()),
            DeviceDefinition::new(switch.clone(), on_only_capabilities()),
        ],
        vec![
            GroupDefinition::new(
                group.clone(),
                vec![switch.clone(), cct_lamp.clone(), color_lamp.clone()],
                group_capabilities,
            )
            .unwrap(),
        ],
        retry_policy(),
    )
    .unwrap();
    connect_with_online_bridge(&mut reconciler, d(0.0));
    let logical = LightTarget {
        on: true,
        brightness: Some(Brightness::new(d(0.6)).unwrap()),
        color_temperature: Some(Kelvin::new(d(3000.0)).unwrap()),
        color: Some(Color::xy(d(0.2), d(0.3)).unwrap()),
        transition_ms: Some(500),
    };

    let actions = reconciler
        .set_group_desired(&group, logical, at(d(1.0)))
        .unwrap();

    assert_eq!(
        actions,
        vec![
            ReconcileAction::Command {
                token: DispatchToken { value: 1 },
                entity: CommandEntity::Group(group),
                target: DeviceTarget {
                    on: Some(true),
                    brightness: Some(Brightness::new(d(0.6)).unwrap()),
                    color_temperature: None,
                    color: None,
                    transition_ms: Some(500),
                },
            },
            ReconcileAction::Command {
                token: DispatchToken { value: 1 },
                entity: CommandEntity::Device(cct_lamp.clone()),
                target: DeviceTarget {
                    on: None,
                    brightness: None,
                    color_temperature: Some(Kelvin::new(d(3000.0)).unwrap()),
                    color: None,
                    transition_ms: Some(500),
                },
            },
            ReconcileAction::Command {
                token: DispatchToken { value: 1 },
                entity: CommandEntity::Device(color_lamp.clone()),
                target: DeviceTarget {
                    on: None,
                    brightness: None,
                    color_temperature: None,
                    color: Some(Color::xy(d(0.2), d(0.3)).unwrap()),
                    transition_ms: Some(500),
                },
            },
        ]
    );
    accept_operations(&mut reconciler, DispatchToken { value: 1 }, 3, at(d(1.0)));
    assert_eq!(
        reconciler
            .device_state(&color_lamp)
            .unwrap()
            .pending_command()
            .unwrap()
            .target(),
        color_capabilities().degrade(&logical)
    );
    assert_eq!(
        reconciler
            .device_state(&switch)
            .unwrap()
            .pending_command()
            .unwrap()
            .target(),
        on_only_capabilities().degrade(&logical)
    );
}

#[test]
fn empty_group_command_falls_back_to_members_only() {
    let lamp = id("lamp");
    let group = entity("empty_group_capability");
    let empty = Capabilities {
        on_off: false,
        dimming: false,
        color_temperature: None,
        color_xy: false,
        color_hs: false,
        input: false,
        occupancy: false,
        temperature: false,
        power_metering: false,
    };
    let mut reconciler = Reconciler::new(
        vec![DeviceDefinition::new(lamp.clone(), capabilities())],
        vec![GroupDefinition::new(group.clone(), vec![lamp.clone()], empty).unwrap()],
        retry_policy(),
    )
    .unwrap();
    connect_with_online_bridge(&mut reconciler, d(0.0));

    assert_eq!(
        reconciler
            .set_group_desired(&group, target(d(0.4)), at(d(1.0)))
            .unwrap(),
        vec![ReconcileAction::Command {
            token: DispatchToken { value: 1 },
            entity: CommandEntity::Device(lamp),
            target: device_target(d(0.4)),
        }]
    );
}

#[test]
fn dispatch_is_not_accounted_until_wire_acceptance() {
    let lamp = id("lamp");
    let mut reconciler =
        connected_reconciler(vec![DeviceDefinition::new(lamp.clone(), capabilities())]);

    let actions = reconciler
        .set_device_desired(&lamp, target(d(0.5)), at(d(1.0)))
        .unwrap();
    let ReconcileAction::Command { token, .. } = actions[0] else {
        panic!("expected staged command")
    };
    assert_eq!(reconciler.device_state(&lamp).unwrap().last_command(), None);
    assert!(
        reconciler
            .device_state(&lamp)
            .unwrap()
            .pending_command()
            .is_none()
    );

    accept_operations(&mut reconciler, token, 1, at(d(1.1)));
    let pending = reconciler
        .device_state(&lamp)
        .unwrap()
        .pending_command()
        .unwrap();
    assert_eq!(pending.attempts(), 1);
    assert_eq!(pending.deadline(), at(d(3.6)));
    assert_eq!(pending.target(), device_target(d(0.5)));

    assert!(matches!(
        reconciler.claim_next_operation(token, 0).unwrap(),
        DispatchClaim::Stale
    ));
}

#[test]
fn failed_dispatch_restages_without_spending_retry_budget() {
    let lamp = id("lamp");
    let mut reconciler =
        connected_reconciler(vec![DeviceDefinition::new(lamp.clone(), capabilities())]);
    let first = reconciler
        .set_device_desired(&lamp, target(d(0.5)), at(d(1.0)))
        .unwrap();
    let ReconcileAction::Command {
        token: first_token, ..
    } = first[0]
    else {
        panic!("expected staged command")
    };

    fail_first_operation(&mut reconciler, first_token, at(d(1.1)));
    assert!(reconciler.retry_due(at(d(1.599_999))).unwrap().is_empty());
    let retry = reconciler.retry_due(at(d(1.6))).unwrap();
    let ReconcileAction::Command {
        token: retry_token, ..
    } = retry[0]
    else {
        panic!("expected restaged command")
    };
    assert_ne!(first_token, retry_token);
    assert!(
        reconciler
            .device_state(&lamp)
            .unwrap()
            .pending_command()
            .is_none()
    );

    accept_operations(&mut reconciler, retry_token, 1, at(d(1.7)));
    assert_eq!(
        reconciler
            .device_state(&lamp)
            .unwrap()
            .pending_command()
            .unwrap()
            .attempts(),
        1
    );
}

#[test]
fn failed_correlation_retry_stays_deferred_until_exact_local_backoff_boundary() {
    let lamp = id("lamp");
    let mut reconciler =
        connected_reconciler(vec![DeviceDefinition::new(lamp.clone(), capabilities())]);
    let initial = reconciler
        .set_device_desired(&lamp, target(d(0.5)), at(d(1.0)))
        .unwrap();
    let ReconcileAction::Command {
        token: initial_token,
        ..
    } = initial[0]
    else {
        panic!("expected initial command")
    };
    accept_operations(&mut reconciler, initial_token, 1, at(d(1.0)));

    let correlation_retry = reconciler.retry_due(at(d(3.5))).unwrap();
    let ReconcileAction::Command {
        token: retry_token, ..
    } = correlation_retry[0]
    else {
        panic!("expected correlation retry")
    };
    fail_first_operation(&mut reconciler, retry_token, at(d(3.6)));

    assert!(reconciler.retry_due(at(d(3.7))).unwrap().is_empty());
    assert!(reconciler.retry_due(at(d(4.099_999))).unwrap().is_empty());
    let retry = reconciler.retry_due(at(d(4.1))).unwrap();
    assert_eq!(retry.len(), 1);
    assert!(reconciler.retry_due(at(d(4.1))).unwrap().is_empty());
}

#[test]
fn repeated_local_dispatch_failures_never_exhaust_on_wire_attempts() {
    let lamp = id("lamp");
    let mut reconciler =
        connected_reconciler(vec![DeviceDefinition::new(lamp.clone(), capabilities())]);
    let mut actions = reconciler
        .set_device_desired(&lamp, target(d(0.5)), at(d(1.0)))
        .unwrap();

    let mut current = 1.0;
    for _ in 1..=20 {
        let ReconcileAction::Command { token, .. } = actions[0] else {
            unreachable!()
        };
        fail_first_operation(&mut reconciler, token, at(d(current + 0.01)));
        assert!(
            reconciler
                .retry_due(at(d(current + 0.509_999)))
                .unwrap()
                .is_empty()
        );
        current += 0.51;
        actions = reconciler.retry_due(at(d(current))).unwrap();
        assert!(
            reconciler
                .device_state(&lamp)
                .unwrap()
                .pending_command()
                .is_none()
        );
    }

    let ReconcileAction::Command { token, .. } = actions[0] else {
        unreachable!()
    };
    accept_operations(&mut reconciler, token, 1, at(d(current + 0.01)));
    assert_eq!(
        reconciler
            .device_state(&lamp)
            .unwrap()
            .pending_command()
            .unwrap()
            .attempts(),
        1
    );
}

#[test]
fn group_and_fallback_publications_share_one_atomic_dispatch_token() {
    let full = id("full");
    let limited = id("limited");
    let group = entity("room");
    let group_capabilities = Capabilities {
        color_temperature: None,
        ..capabilities()
    };
    let mut reconciler = Reconciler::new(
        vec![
            DeviceDefinition::new(full.clone(), capabilities()),
            DeviceDefinition::new(limited.clone(), on_only_capabilities()),
        ],
        vec![
            GroupDefinition::new(
                group.clone(),
                vec![full.clone(), limited.clone()],
                group_capabilities,
            )
            .unwrap(),
        ],
        retry_policy(),
    )
    .unwrap();
    connect_with_online_bridge(&mut reconciler, d(0.0));

    let actions = reconciler
        .set_group_desired(&group, target(d(0.5)), at(d(1.0)))
        .unwrap();
    let tokens: BTreeSet<_> = actions
        .iter()
        .filter_map(|action| match action {
            ReconcileAction::Command { token, .. } => Some(*token),
            _ => None,
        })
        .collect();
    assert_eq!(tokens.len(), 1);
    assert!(reconciler.device_state(&full).unwrap().pending.is_none());
    assert!(reconciler.device_state(&limited).unwrap().pending.is_none());

    accept_operations(
        &mut reconciler,
        *tokens.first().unwrap(),
        actions.len(),
        at(d(1.1)),
    );
    assert!(reconciler.device_state(&full).unwrap().pending.is_some());
    assert!(reconciler.device_state(&limited).unwrap().pending.is_some());
}

#[test]
fn disconnect_invalidates_staged_dispatch_and_reconnect_restages() {
    let lamp = id("lamp");
    let mut reconciler =
        connected_reconciler(vec![DeviceDefinition::new(lamp.clone(), capabilities())]);
    let first = reconciler
        .set_device_desired(&lamp, target(d(0.5)), at(d(1.0)))
        .unwrap();
    let ReconcileAction::Command { token, .. } = first[0] else {
        panic!("expected staged command")
    };

    reconciler.broker_disconnected(at(d(1.1))).unwrap();
    assert!(matches!(
        reconciler.claim_next_operation(token, 0).unwrap(),
        DispatchClaim::Stale
    ));
    assert!(
        !reconciler
            .broker_connected(at(d(1.3)))
            .unwrap()
            .iter()
            .any(|action| matches!(action, ReconcileAction::Command { .. }))
    );
    assert!(
        reconciler
            .set_bridge_availability(Availability::Online, at(d(1.4)))
            .unwrap()
            .is_empty()
    );
    assert!(
        reconciler
            .set_device_availability(&lamp, Availability::Online, at(d(1.5)))
            .unwrap()
            .iter()
            .any(|action| matches!(action, ReconcileAction::Command { .. }))
    );
}

#[test]
fn equivalent_hs_and_xy_observations_reconcile_but_different_colors_do_not() {
    assert!(colors_in_sync(
        Color::hs(d(0.0), d(1.0)).unwrap(),
        Color::xy(d(0.64), d(0.33)).unwrap(),
        ColorComparisonPolicy::default(),
    ));
    assert!(!colors_in_sync(
        Color::hs(d(0.0), d(1.0)).unwrap(),
        Color::xy(d(0.15), d(0.06)).unwrap(),
        ColorComparisonPolicy::default(),
    ));
}

#[test]
fn dispatch_token_overflow_is_atomic() {
    let lamp = id("lamp");
    let mut reconciler =
        connected_reconciler(vec![DeviceDefinition::new(lamp.clone(), capabilities())]);
    reconciler.next_dispatch_token = u64::MAX;
    let before = reconciler.copied();

    assert_eq!(
        reconciler.set_device_desired(&lamp, target(d(0.5)), at(d(1.0))),
        Err(ReconcileError::DispatchTokenOverflow)
    );
    assert_eq!(reconciler, before);
}

#[test]
fn staged_acceptance_timeout_expires_then_restages_at_exact_backoff_boundary() {
    let lamp = id("lamp");
    let policy = retry_policy().with_dispatch_timing(d(0.5), d(0.25)).unwrap();
    let mut reconciler = Reconciler::new(
        vec![DeviceDefinition::new(lamp.clone(), capabilities())],
        Vec::new(),
        policy,
    )
    .unwrap();
    connect_with_online_bridge(&mut reconciler, d(0.0));
    let first = reconciler
        .set_device_desired(&lamp, target(d(0.5)), at(d(1.0)))
        .unwrap();
    let ReconcileAction::Command { token: old, .. } = first[0] else {
        unreachable!()
    };
    assert_eq!(
        reconciler
            .register_dispatch_plan(old, at(d(1.0)), 1, 0)
            .unwrap(),
        DispatchRegistrationOutcome::Registered
    );
    assert!(reconciler.is_dispatch_token_valid(old));

    assert!(reconciler.retry_due(at(d(1.5))).unwrap().is_empty());
    assert!(!reconciler.is_dispatch_token_valid(old));
    assert!(reconciler.retry_due(at(d(1.749_999))).unwrap().is_empty());
    let restaged = reconciler.retry_due(at(d(1.75))).unwrap();
    let ReconcileAction::Command { token: new, .. } = restaged[0] else {
        unreachable!()
    };
    assert_ne!(old, new);
    assert!(reconciler.is_dispatch_token_valid(new));
    assert!(reconciler.device_state(&lamp).unwrap().pending.is_none());
}

#[test]
fn unregistered_staged_dispatch_expires_then_retries_at_exact_boundaries() {
    let lamp = id("lamp");
    let policy = retry_policy().with_dispatch_timing(d(0.5), d(0.25)).unwrap();
    let mut reconciler = Reconciler::new(
        vec![DeviceDefinition::new(lamp.clone(), capabilities())],
        Vec::new(),
        policy,
    )
    .unwrap();
    connect_with_online_bridge(&mut reconciler, d(0.0));
    let first = reconciler
        .set_device_desired(&lamp, target(d(0.5)), at(d(1.0)))
        .unwrap();
    let ReconcileAction::Command { token: old, .. } = first[0] else {
        unreachable!()
    };

    assert!(reconciler.retry_due(at(d(1.499_999))).unwrap().is_empty());
    assert!(reconciler.is_dispatch_token_valid(old));
    assert!(reconciler.retry_due(at(d(1.5))).unwrap().is_empty());
    assert!(!reconciler.is_dispatch_token_valid(old));
    assert!(reconciler.retry_due(at(d(1.749_999))).unwrap().is_empty());
    let retry = reconciler.retry_due(at(d(1.75))).unwrap();
    let ReconcileAction::Command { token: new, .. } = retry[0] else {
        unreachable!()
    };
    assert_ne!(new, old);
}

#[test]
fn accepted_transition_waits_for_completion_and_retry_interval() {
    let lamp = id("lamp");
    let mut reconciler =
        connected_reconciler(vec![DeviceDefinition::new(lamp.clone(), capabilities())]);
    let mut desired = target(d(0.5));
    desired.transition_ms = Some(60_000);
    let actions = reconciler
        .set_device_desired(&lamp, desired, at(d(1.0)))
        .unwrap();
    let ReconcileAction::Command { token, .. } = actions[0] else {
        unreachable!()
    };
    accept_operations(&mut reconciler, token, 1, at(d(1.0)));

    assert_eq!(
        reconciler
            .device_state(&lamp)
            .unwrap()
            .pending_command()
            .unwrap()
            .deadline(),
        at(d(63.0))
    );
}

#[test]
fn intermediate_fade_observations_do_not_restart_transition_before_exact_deadline() {
    let lamp = id("lamp");
    let mut reconciler =
        connected_reconciler(vec![DeviceDefinition::new(lamp.clone(), capabilities())]);
    let mut desired = target(d(0.5));
    desired.transition_ms = Some(60_000);
    let actions = reconciler
        .set_device_desired(&lamp, desired, at(d(1.0)))
        .unwrap();
    let ReconcileAction::Command { token, .. } = actions[0] else {
        unreachable!()
    };
    accept_operations(&mut reconciler, token, 1, at(d(1.0)));

    let intermediate = DeviceTarget {
        on: Some(true),
        brightness: Some(Brightness::new(d(0.25)).unwrap()),
        color_temperature: Some(Kelvin::new(d(3000.0)).unwrap()),
        color: None,
        transition_ms: None,
    };
    assert!(
        reconciler
            .observe(&lamp, intermediate, at(d(31.0)))
            .unwrap()
            .is_empty()
    );
    assert!(reconciler.retry_due(at(d(62.999_999))).unwrap().is_empty());
    assert_eq!(reconciler.retry_due(at(d(63.0))).unwrap().len(), 1);
}

#[test]
fn accepted_transition_deadline_saturates_at_monotonic_range_limit() {
    let lamp = id("lamp");
    let mut reconciler =
        connected_reconciler(vec![DeviceDefinition::new(lamp.clone(), capabilities())]);
    let mut desired = target(d(0.5));
    desired.transition_ms = Some(60_000);
    let actions = reconciler
        .set_device_desired(&lamp, desired, at(d(1.0)))
        .unwrap();
    let ReconcileAction::Command { token, .. } = actions[0] else {
        unreachable!()
    };
    reconciler
        .register_dispatch_plan(token, at(d(1.0)), 1, 0)
        .unwrap();
    let DispatchClaim::Ready(permit) = reconciler.claim_next_operation(token, 0).unwrap()
    else {
        unreachable!()
    };

    assert_eq!(
        permit.accepted(at(d(f64::MAX))).unwrap(),
        DispatchAcceptance::BatchAccepted
    );
    assert_eq!(
        reconciler
            .device_state(&lamp)
            .unwrap()
            .pending_command()
            .unwrap()
            .deadline(),
        at(d(f64::MAX))
    );
}

#[test]
fn registered_delayed_plan_gets_its_full_offset_plus_acceptance_margin() {
    let lamp = id("lamp");
    let policy = retry_policy().with_dispatch_timing(d(0.5), d(0.25)).unwrap();
    let mut reconciler = Reconciler::new(
        vec![DeviceDefinition::new(lamp.clone(), capabilities())],
        Vec::new(),
        policy,
    )
    .unwrap();
    connect_with_online_bridge(&mut reconciler, d(0.0));
    let actions = reconciler
        .set_device_desired(&lamp, target(d(0.5)), at(d(1.0)))
        .unwrap();
    let ReconcileAction::Command { token, .. } = actions[0] else {
        unreachable!()
    };

    assert_eq!(
        reconciler
            .register_dispatch_plan(token, at(d(1.0)), 2, 750)
            .unwrap(),
        DispatchRegistrationOutcome::Registered
    );
    assert!(reconciler.retry_due(at(d(1.5))).unwrap().is_empty());
    assert!(reconciler.is_dispatch_token_valid(token));
    assert!(reconciler.retry_due(at(d(2.249_999))).unwrap().is_empty());
    assert!(reconciler.retry_due(at(d(2.25))).unwrap().is_empty());
    assert!(!reconciler.is_dispatch_token_valid(token));
    assert!(reconciler.retry_due(at(d(2.499_999))).unwrap().is_empty());
    assert_eq!(reconciler.retry_due(at(d(2.5))).unwrap().len(), 1);
}

#[test]
fn dispatch_plan_deadline_overflow_is_atomic() {
    let lamp = id("lamp");
    let policy = retry_policy().with_dispatch_timing(d(0.5), d(0.25)).unwrap();
    let mut reconciler = Reconciler::new(
        vec![DeviceDefinition::new(lamp.clone(), capabilities())],
        Vec::new(),
        policy,
    )
    .unwrap();
    connect_with_online_bridge(&mut reconciler, d(0.0));
    let actions = reconciler
        .set_device_desired(&lamp, target(d(0.5)), at(d(1.0)))
        .unwrap();
    let ReconcileAction::Command { token, .. } = actions[0] else {
        unreachable!()
    };
    let before = reconciler.copied();

    assert_eq!(
        reconciler.register_dispatch_plan(token, at(d(f64::MAX)), 1, 0),
        Err(ReconcileError::DispatchAcceptanceDeadlineOverflow)
    );
    assert_eq!(reconciler, before);
}

#[test]
fn borrowed_permits_track_each_operation_and_only_finalize_the_complete_batch() {
    let lamp = id("lamp");
    let mut reconciler =
        connected_reconciler(vec![DeviceDefinition::new(lamp.clone(), capabilities())]);
    let actions = reconciler
        .set_device_desired(&lamp, target(d(0.5)), at(d(1.0)))
        .unwrap();
    let ReconcileAction::Command { token, .. } = actions[0] else {
        unreachable!()
    };
    assert_eq!(
        reconciler
            .register_dispatch_plan(token, at(d(1.0)), 2, 750)
            .unwrap(),
        DispatchRegistrationOutcome::Registered
    );

    let DispatchClaim::Ready(permit) = reconciler.claim_next_operation(token, 0).unwrap()
    else {
        panic!("expected first permit")
    };
    assert_eq!(
        permit.accepted(at(d(1.1))).unwrap(),
        DispatchAcceptance::OperationAccepted { remaining: 1 }
    );
    assert!(reconciler.device_state(&lamp).unwrap().pending.is_none());
    assert!(matches!(
        reconciler.claim_next_operation(token, 0).unwrap(),
        DispatchClaim::AlreadyAccepted
    ));

    let DispatchClaim::Ready(permit) = reconciler.claim_next_operation(token, 1).unwrap()
    else {
        panic!("expected second permit")
    };
    assert_eq!(
        permit.accepted(at(d(1.75))).unwrap(),
        DispatchAcceptance::BatchAccepted
    );
    assert_eq!(
        reconciler
            .device_state(&lamp)
            .unwrap()
            .pending_command()
            .unwrap()
            .attempts(),
        1
    );
    assert!(matches!(
        reconciler.claim_next_operation(token, 1).unwrap(),
        DispatchClaim::Stale
    ));
    assert_eq!(
        reconciler.cancel_dispatch(token, at(d(1.8))).unwrap(),
        DispatchCancellation::Stale
    );
}

#[test]
fn desired_change_between_delayed_operations_makes_the_next_claim_benignly_stale() {
    let lamp = id("lamp");
    let mut reconciler =
        connected_reconciler(vec![DeviceDefinition::new(lamp.clone(), capabilities())]);
    let actions = reconciler
        .set_device_desired(&lamp, target(d(0.5)), at(d(1.0)))
        .unwrap();
    let ReconcileAction::Command { token, .. } = actions[0] else {
        unreachable!()
    };
    reconciler
        .register_dispatch_plan(token, at(d(1.0)), 2, 750)
        .unwrap();
    let DispatchClaim::Ready(permit) = reconciler.claim_next_operation(token, 0).unwrap()
    else {
        unreachable!()
    };
    permit.accepted(at(d(1.05))).unwrap();

    let replacement = reconciler
        .set_device_desired(&lamp, target(d(0.8)), at(d(1.1)))
        .unwrap();
    assert_eq!(replacement.len(), 1);
    assert!(matches!(
        reconciler.claim_next_operation(token, 1).unwrap(),
        DispatchClaim::Stale
    ));
}

#[test]
fn transient_failure_after_partial_acceptance_defers_the_complete_batch() {
    let left = id("left");
    let right = id("right");
    let group = entity("room");
    let mut reconciler = Reconciler::new(
        vec![
            DeviceDefinition::new(left.clone(), capabilities()),
            DeviceDefinition::new(right.clone(), capabilities()),
        ],
        vec![
            GroupDefinition::new(
                group.clone(),
                vec![left.clone(), right.clone()],
                capabilities(),
            )
            .unwrap(),
        ],
        retry_policy(),
    )
    .unwrap();
    connect_with_online_bridge(&mut reconciler, d(0.0));
    let actions = reconciler
        .set_group_desired(&group, target(d(0.5)), at(d(1.0)))
        .unwrap();
    let ReconcileAction::Command { token, .. } = actions[0] else {
        unreachable!()
    };
    reconciler
        .register_dispatch_plan(token, at(d(1.0)), 2, 0)
        .unwrap();
    let DispatchClaim::Ready(first) = reconciler.claim_next_operation(token, 0).unwrap() else {
        unreachable!()
    };
    assert_eq!(
        first.accepted(at(d(1.05))).unwrap(),
        DispatchAcceptance::OperationAccepted { remaining: 1 }
    );
    let DispatchClaim::Ready(second) = reconciler.claim_next_operation(token, 1).unwrap()
    else {
        unreachable!()
    };
    second.transient_failure(at(d(1.1))).unwrap();
    assert!(reconciler.device_state(&left).unwrap().pending.is_none());
    assert!(reconciler.device_state(&right).unwrap().pending.is_none());
    assert!(reconciler.retry_due(at(d(1.599_999))).unwrap().is_empty());
    let restaged = reconciler.retry_due(at(d(1.6))).unwrap();
    assert_eq!(restaged.len(), 2);
    let tokens: BTreeSet<_> = restaged
        .iter()
        .filter_map(|action| match action {
            ReconcileAction::Command { token, .. } => Some(*token),
            _ => None,
        })
        .collect();
    assert_eq!(tokens.len(), 1);
}

#[test]
fn claimed_permanent_failure_cancels_without_retry() {
    let lamp = id("lamp");
    let mut reconciler =
        connected_reconciler(vec![DeviceDefinition::new(lamp.clone(), capabilities())]);
    let actions = reconciler
        .set_device_desired(&lamp, target(d(0.5)), at(d(1.0)))
        .unwrap();
    let ReconcileAction::Command { token, .. } = actions[0] else {
        unreachable!()
    };
    reconciler
        .register_dispatch_plan(token, at(d(1.0)), 1, 0)
        .unwrap();
    let DispatchClaim::Ready(permit) = reconciler.claim_next_operation(token, 0).unwrap()
    else {
        unreachable!()
    };
    permit.permanent_failure(at(d(1.1))).unwrap();

    assert!(matches!(
        reconciler.claim_next_operation(token, 0).unwrap(),
        DispatchClaim::Stale
    ));
    assert!(reconciler.retry_due(at(d(100.0))).unwrap().is_empty());
}

#[test]
fn timeout_and_duplicate_registration_races_are_typed_but_bad_order_is_an_error() {
    let lamp = id("lamp");
    let policy = retry_policy().with_dispatch_timing(d(0.5), d(0.25)).unwrap();
    let mut reconciler = Reconciler::new(
        vec![DeviceDefinition::new(lamp.clone(), capabilities())],
        Vec::new(),
        policy,
    )
    .unwrap();
    connect_with_online_bridge(&mut reconciler, d(0.0));
    let actions = reconciler
        .set_device_desired(&lamp, target(d(0.5)), at(d(1.0)))
        .unwrap();
    let ReconcileAction::Command { token, .. } = actions[0] else {
        unreachable!()
    };
    assert!(matches!(
        reconciler.claim_next_operation(token, 0),
        Err(ReconcileError::UnregisteredDispatchPlan(unregistered))
            if unregistered == token
    ));
    let before_invalid_registration = reconciler.copied();
    assert_eq!(
        reconciler.register_dispatch_plan(token, at(d(1.0)), 0, 0),
        Err(ReconcileError::InvalidDispatchOperationCount)
    );
    assert_eq!(reconciler, before_invalid_registration);
    assert_eq!(
        reconciler
            .register_dispatch_plan(token, at(d(1.0)), 2, 0)
            .unwrap(),
        DispatchRegistrationOutcome::Registered
    );
    assert_eq!(
        reconciler
            .register_dispatch_plan(token, at(d(1.0)), 2, 0)
            .unwrap(),
        DispatchRegistrationOutcome::AlreadyRegistered
    );
    let before_mismatch = reconciler.copied();
    assert_eq!(
        reconciler.register_dispatch_plan(token, at(d(1.0)), 3, 0),
        Err(ReconcileError::DispatchPlanMismatch(token))
    );
    assert_eq!(reconciler, before_mismatch);
    assert!(matches!(
        reconciler.claim_next_operation(token, 1),
        Err(ReconcileError::UnexpectedDispatchOperation {
            expected: 0,
            actual: 1,
            operation_count: 2,
        })
    ));
    assert!(reconciler.retry_due(at(d(1.5))).unwrap().is_empty());
    assert!(matches!(
        reconciler.claim_next_operation(token, 0).unwrap(),
        DispatchClaim::Stale
    ));
    assert_eq!(
        reconciler
            .register_dispatch_plan(token, at(d(1.0)), 2, 0)
            .unwrap(),
        DispatchRegistrationOutcome::Stale
    );
    assert_eq!(
        reconciler.cancel_dispatch(token, at(d(1.5))).unwrap(),
        DispatchCancellation::Stale
    );
}

#[test]
fn transient_failure_waits_for_backoff_and_permanent_cancel_does_not_retry() {
    let lamp = id("lamp");
    let policy = retry_policy().with_dispatch_timing(d(0.5), d(0.25)).unwrap();
    let mut reconciler = Reconciler::new(
        vec![DeviceDefinition::new(lamp.clone(), capabilities())],
        Vec::new(),
        policy,
    )
    .unwrap();
    connect_with_online_bridge(&mut reconciler, d(0.0));
    let first = reconciler
        .set_device_desired(&lamp, target(d(0.5)), at(d(1.0)))
        .unwrap();
    let ReconcileAction::Command { token: old, .. } = first[0] else {
        unreachable!()
    };

    fail_first_operation(&mut reconciler, old, at(d(1.1)));
    assert!(!reconciler.is_dispatch_token_valid(old));
    assert!(reconciler.retry_due(at(d(1.349_999))).unwrap().is_empty());
    let retry = reconciler.retry_due(at(d(1.35))).unwrap();
    let ReconcileAction::Command { token: retry, .. } = retry[0] else {
        unreachable!()
    };
    assert_eq!(
        reconciler.cancel_dispatch(retry, at(d(1.36))).unwrap(),
        DispatchCancellation::Cancelled
    );
    assert!(reconciler.retry_due(at(d(100.0))).unwrap().is_empty());
    assert!(reconciler.device_state(&lamp).unwrap().pending.is_none());
}

#[test]
fn changing_one_member_cancels_group_token_and_restages_complete_current_batch() {
    let left = id("left");
    let right = id("right");
    let group = entity("room");
    let mut reconciler = Reconciler::new(
        vec![
            DeviceDefinition::new(left.clone(), capabilities()),
            DeviceDefinition::new(right.clone(), capabilities()),
        ],
        vec![
            GroupDefinition::new(
                group.clone(),
                vec![left.clone(), right.clone()],
                capabilities(),
            )
            .unwrap(),
        ],
        retry_policy(),
    )
    .unwrap();
    connect_with_online_bridge(&mut reconciler, d(0.0));
    let group_batch = reconciler
        .set_group_desired(&group, target(d(0.5)), at(d(1.0)))
        .unwrap();
    let ReconcileAction::Command {
        token: group_token, ..
    } = group_batch[0]
    else {
        unreachable!()
    };

    let restaged = reconciler
        .set_device_desired(&left, target(d(0.8)), at(d(1.1)))
        .unwrap();
    assert!(!reconciler.is_dispatch_token_valid(group_token));
    assert_eq!(restaged.len(), 2);
    let ReconcileAction::Command {
        token: current_token,
        ..
    } = restaged[0]
    else {
        unreachable!()
    };
    assert!(restaged.iter().all(|action| matches!(
        action,
        ReconcileAction::Command { token, .. } if *token == current_token
    )));
    assert!(restaged.iter().any(|action| matches!(
        action,
        ReconcileAction::Command { entity: CommandEntity::Device(id), target, .. }
            if id == &left && *target == device_target(d(0.8))
    )));
    assert!(restaged.iter().any(|action| matches!(
        action,
        ReconcileAction::Command { entity: CommandEntity::Device(id), target, .. }
            if id == &right && *target == device_target(d(0.5))
    )));
    accept_operations(&mut reconciler, current_token, restaged.len(), at(d(1.2)));
    assert!(reconciler.device_state(&left).unwrap().pending.is_some());
    assert!(reconciler.device_state(&right).unwrap().pending.is_some());
}

#[test]
fn color_policy_handles_gamut_endpoints_achromatic_hue_and_rejects_malformed_values() {
    let hue_gamut = ColorGamut::new((d(0.6915), d(0.3083)), (d(0.17), d(0.7)), (d(0.1532), d(0.0475))).unwrap();
    let policy = ColorComparisonPolicy::new(Some(hue_gamut), d(0.06), d(0.02)).unwrap();
    assert!(colors_in_sync(
        Color::hs(d(0.0), d(1.0)).unwrap(),
        Color::xy(d(0.6915), d(0.3083)).unwrap(),
        policy,
    ));
    assert!(!colors_in_sync(
        Color::hs(d(0.0), d(1.0)).unwrap(),
        Color::xy(d(0.1532), d(0.0475)).unwrap(),
        policy,
    ));
    assert!(colors_in_sync(
        Color::hs(d(5.0), d(0.005)).unwrap(),
        Color::hs(d(275.0), d(0.006)).unwrap(),
        policy,
    ));

    assert!(ColorGamut::new((d(0.1), d(0.1)), (d(0.2), d(0.2)), (d(0.3), d(0.3))).is_err());
    assert!(ColorGamut::new((d(f64::NAN), d(0.1)), (d(0.2), d(0.3)), (d(0.4), d(0.5))).is_err());
    assert!(ColorComparisonPolicy::new(None, d(0.0), d(0.02)).is_err());
    assert!(ColorComparisonPolicy::new(None, d(0.03), d(1.1)).is_err());
}

/// A lamp whose first command was accepted and went unanswered, with the token of
/// the second.
fn lamp_under_retry(lamp: &DeviceId) -> (Reconciler, DispatchToken) {
    let mut reconciler =
        connected_reconciler(vec![DeviceDefinition::new(lamp.clone(), capabilities())]);
    reconciler
        .set_device_desired(lamp, target(d(0.5)), at(d(1.0)))
        .unwrap();
    accept_operations(&mut reconciler, DispatchToken { value: 1 }, 1, at(d(1.0)));
    let actions = reconciler.retry_due(at(d(3.5))).unwrap();
    let ReconcileAction::Command { token, .. } = actions[0] else {
        unreachable!()
    };
    (reconciler, token)
}

#[test]
fn a_cancelled_retry_is_not_repeated() {
    let lamp = id("lamp");
    let (mut reconciler, token) = lamp_under_retry(&lamp);
    assert!(reconciler.device_state(&lamp).unwrap().pending_command().is_some());
    assert_eq!(
        reconciler.cancel_dispatch(token, at(d(3.6))).unwrap(),
        DispatchCancellation::Cancelled
    );
    assert!(reconciler.device_state(&lamp).unwrap().pending_command().is_none());
    assert_eq!(reconciler.next_deadline(), None);
    for seconds in [3.7, 6.0, 100.0] {
        assert!(reconciler.retry_due(at(d(seconds))).unwrap().is_empty());
    }
    assert!(!reconciler
        .set_device_desired(&lamp, target(d(0.8)), at(d(101.0)))
        .unwrap()
        .is_empty());
}

#[test]
fn a_retry_that_fails_for_good_is_not_repeated() {
    let lamp = id("lamp");
    let (mut reconciler, token) = lamp_under_retry(&lamp);
    reconciler
        .register_dispatch_plan(token, at(d(3.5)), 1, 0)
        .unwrap();
    let DispatchClaim::Ready(permit) = reconciler.claim_next_operation(token, 0).unwrap() else {
        unreachable!()
    };
    permit.permanent_failure(at(d(3.6))).unwrap();
    assert!(reconciler.device_state(&lamp).unwrap().pending_command().is_none());
    assert_eq!(reconciler.next_deadline(), None);
    assert!(reconciler.retry_due(at(d(100.0))).unwrap().is_empty());
}

#[test]
fn a_retry_that_fails_for_now_waits_and_returns() {
    let lamp = id("lamp");
    let (mut reconciler, token) = lamp_under_retry(&lamp);
    fail_first_operation(&mut reconciler, token, at(d(3.6)));
    assert!(!reconciler.is_dispatch_token_valid(token));
    assert!(reconciler.retry_due(at(d(3.6))).unwrap().is_empty());
    let actions = reconciler.retry_due(at(d(100.0))).unwrap();
    assert_eq!(
        actions,
        vec![ReconcileAction::Command {
            token: DispatchToken { value: 3 },
            entity: CommandEntity::Device(lamp),
            target: device_target(d(0.5)),
        }]
    );
}

#[test]
fn devices_asked_for_twice_are_commanded_once_in_name_order() {
    let (left, right) = (id("left"), id("right"));
    let mut reconciler = connected_reconciler(vec![
        DeviceDefinition::new(left.clone(), capabilities()),
        DeviceDefinition::new(right.clone(), capabilities()),
    ]);
    for device in [&left, &right] {
        reconciler
            .set_device_desired(device, target(d(0.4)), at(d(1.0)))
            .unwrap();
    }
    let mut same = reconciler.copied();
    let actions = reconciler
        .force_reconcile_devices(&vec![right.clone(), left.clone(), right.clone()], at(d(2.0)))
        .unwrap();
    assert_eq!(
        actions,
        same.force_reconcile_devices(&vec![left.clone(), right.clone()], at(d(2.0)))
            .unwrap()
    );
    let entities: Vec<_> = actions
        .iter()
        .map(|action| match action {
            ReconcileAction::Command { entity, .. } => entity.clone(),
            _ => panic!("only commands are expected"),
        })
        .collect();
    assert_eq!(
        entities,
        vec![CommandEntity::Device(left), CommandEntity::Device(right)]
    );
}

#[test]
fn tokens_grow_and_a_lost_connection_ends_them() {
    let lamp = id("lamp");
    let mut reconciler =
        connected_reconciler(vec![DeviceDefinition::new(lamp.clone(), capabilities())]);
    let mut last = 0;
    for (round, brightness) in [0.2, 0.4, 0.6].into_iter().enumerate() {
        let actions = reconciler
            .set_device_desired(&lamp, target(d(brightness)), at(d(1.0 + round as f64)))
            .unwrap();
        let ReconcileAction::Command { token, .. } = actions[0] else {
            unreachable!()
        };
        assert!(token.value > last);
        assert!(!reconciler.is_dispatch_token_valid(DispatchToken { value: last }));
        last = token.value;
    }
    assert!(reconciler.is_dispatch_token_valid(DispatchToken { value: last }));
    reconciler.broker_disconnected(at(d(9.0))).unwrap();
    assert!(!reconciler.is_dispatch_token_valid(DispatchToken { value: last }));
}

#[test]
fn a_cleared_group_is_not_named_after_a_reconnection() {
    let (left, right, group) = (id("left"), id("right"), entity("living_room"));
    let mut reconciler = Reconciler::new(
        vec![
            DeviceDefinition::new(left.clone(), capabilities()),
            DeviceDefinition::new(right.clone(), capabilities()),
        ],
        vec![
            GroupDefinition::new(group.clone(), vec![left, right], capabilities()).unwrap(),
        ],
        retry_policy(),
    )
    .unwrap();
    connect_with_online_bridge(&mut reconciler, d(0.0));
    reconciler
        .set_group_desired(&group, target(d(0.6)), at(d(1.0)))
        .unwrap();
    reconciler.clear_group_desired(&group, at(d(2.0))).unwrap();
    reconciler.broker_disconnected(at(d(3.0))).unwrap();
    let actions = connect_with_online_bridge(&mut reconciler, d(4.0));
    let mut commands = 0;
    for action in &actions {
        if let ReconcileAction::Command { entity, .. } = action {
            assert!(matches!(entity, CommandEntity::Device(_)));
            commands += 1;
        }
    }
    assert_eq!(commands, 2);
}

#[test]
fn tiny_color_tolerances_still_tell_colors_apart() {
    let policy = ColorComparisonPolicy::new(None, d(1e-200), d(0.02)).unwrap();
    let at_zero = Color::xy(d(0.0), d(0.3)).unwrap();
    assert!(!colors_in_sync(at_zero, Color::xy(d(1e-170), d(0.3)).unwrap(), policy));
    assert!(colors_in_sync(at_zero, Color::xy(d(1e-201), d(0.3)).unwrap(), policy));
    assert!(colors_in_sync(at_zero, at_zero, policy));
    let wide = ColorComparisonPolicy::new(None, d(0.5), d(0.02)).unwrap();
    assert!(colors_in_sync(at_zero, Color::xy(d(0.25), d(0.3)).unwrap(), wide));
    assert!(!colors_in_sync(at_zero, Color::xy(d(0.5), d(0.6)).unwrap(), wide));
}

#[test]
fn a_batch_put_off_returns_whole_though_its_light_is_in_another() {
    let lamp = id("lamp");
    let mut reconciler =
        connected_reconciler(vec![DeviceDefinition::new(lamp.clone(), capabilities())]);
    let first = reconciler
        .set_device_desired(&lamp, target(d(0.5)), at(d(1.0)))
        .unwrap();
    let ReconcileAction::Command { token: first, .. } = first[0] else {
        unreachable!()
    };
    let second = reconciler
        .force_reconcile_devices(&vec![lamp.clone()], at(d(1.0)))
        .unwrap();
    let ReconcileAction::Command { token: second, .. } = second[0] else {
        unreachable!()
    };
    assert!(reconciler.is_dispatch_token_valid(first));
    fail_first_operation(&mut reconciler, first, at(d(1.1)));
    assert!(!reconciler.is_dispatch_token_valid(first));
    assert!(reconciler.is_dispatch_token_valid(second));
    assert!(reconciler.retry_due(at(d(1.1))).unwrap().is_empty());
    let actions = reconciler.retry_due(at(d(100.0))).unwrap();
    assert!(actions.contains(&ReconcileAction::Command {
        token: DispatchToken { value: 3 },
        entity: CommandEntity::Device(lamp),
        target: device_target(d(0.5)),
    }));
}
