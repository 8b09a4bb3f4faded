use house_automation::actor::{is_durable, next_delay, Adoption, Agenda, Hearing};
use house_automation::config::{
    RawAcknowledgement, RawCircadian, RawCredentials, RawHealth, RawInput, RawLocation, RawMqtt,
    RawReconciliation, RawWholeHour,
};
use house_automation::double::Double;
use house_automation::pause::Pause;
use house_automation::health::HealthState;
use house_automation::input::{Direction, Gesture, RawInputEvent};
use house_automation::reconcile::{
    Availability, CommandEntity, DeviceId, DispatchAcceptance, ReconcileAction, TransportStatus,
};
use house_automation::runtime::{
    target_change_exceeds_threshold, HouseEngine, RuntimeError, RuntimeInstant,
};
use house_automation::mqtt::{OwnedInboundMessage, TransportEvent};
use house_automation::scheduler::{ClockSample, WallTime};
use house_automation::service::{Reply, RuntimeActor};
use house_automation::setup::RawConfig;
use house_automation::startup::{are_alike, normalize_state};
use house_automation::state::{
    AutomationState, ControlId, ControlState, LocalDate, MonotonicTime, Scope, ScopeId, ScopeState,
};
use house_automation::topology::{
    RawAction, RawAnchor, RawCapabilities, RawColorTemperature, RawControl, RawCurve, RawCurveKind,
    RawDevice, RawFloor, RawGroup, RawMapping, RawRoom, RawScope,
};
use house_automation::value::LightTarget;
use house_automation::zigbee2mqtt::{AdapterOperation, InboundEvent, InboundMessage, Qos};

fn d(value: f64) -> Double {
    Double::from_bits(value.to_bits())
}

fn f(value: Double) -> f64 {
    f64::from_bits(value.to_bits())
}

fn lamp_capabilities() -> RawCapabilities {
    RawCapabilities {
        on_off: true,
        dimming: true,
        color_temperature: Some(RawColorTemperature {
            minimum_kelvin: d(2200.0),
            maximum_kelvin: d(4000.0),
            minimum_mired: Some(250),
            maximum_mired: Some(454),
        }),
        ..RawCapabilities::default()
    }
}

fn lamp(id: &str, room: &str) -> RawDevice {
    RawDevice {
        id: id.to_owned(),
        aliases: vec![format!("old_{id}")],
        friendly_name: format!("{room}/{id}"),
        room: room.to_owned(),
        capabilities: lamp_capabilities(),
        color_comparison: None,
        single_transition_attribute: false,
    }
}

fn anchor(time: &str, brightness: f64, kelvin: f64) -> RawAnchor {
    RawAnchor {
        time: time.to_owned(),
        brightness: d(brightness),
        color_temperature_kelvin: d(kelvin),
    }
}

fn fixed_curve() -> RawCurve {
    RawCurve {
        id: "daily".to_owned(),
        kind: RawCurveKind::Fixed,
        anchors: Some(vec![
            anchor("06:00", 0.2, 2200.0),
            anchor("12:00", 0.8, 3000.0),
            anchor("22:00:30", 0.3, 2500.0),
        ]),
        wake_time: None,
        bed_time: None,
        night_brightness: None,
        day_brightness: None,
        night_color_temperature_kelvin: None,
        day_color_temperature_kelvin: None,
        winter_hold: None,
    }
}

fn mapping(gesture: &str, target: &str, action: RawAction) -> RawMapping {
    RawMapping {
        gesture: gesture.to_owned(),
        target: target.to_owned(),
        action,
    }
}

/// Two rooms on one floor, three lamps of which two form a group, one remote.
fn house() -> RawConfig {
    RawConfig {
        schema_version: 1,
        location: Some(RawLocation {
            latitude: d(59.3),
            longitude: d(18.1),
            time_zone: "Europe/Stockholm".to_owned(),
        }),
        mqtt: RawMqtt {
            host: "broker.local".to_owned(),
            port: 1883,
            client_id: "house".to_owned(),
            application_namespace: "house/v1".to_owned(),
            zigbee2mqtt_base_topic: "zigbee2mqtt".to_owned(),
            credentials: Some(RawCredentials {
                environment_file: "/run/credentials/mqtt.env".to_owned(),
                resolved: None,
                username_variable: "MQTT_USERNAME".to_owned(),
                password_variable: "MQTT_PASSWORD".to_owned(),
            }),
        },
        input: RawInput::default(),
        circadian: RawCircadian::default(),
        acknowledgement: RawAcknowledgement::default(),
        whole_hour: RawWholeHour::default(),
        reconciliation: RawReconciliation::default(),
        health: RawHealth::default(),
        floors: vec![RawFloor {
            id: "ground".to_owned(),
        }],
        rooms: vec![
            RawRoom {
                id: "living".to_owned(),
                floor: "ground".to_owned(),
            },
            RawRoom {
                id: "kitchen".to_owned(),
                floor: "ground".to_owned(),
            },
        ],
        curves: vec![fixed_curve()],
        scopes: vec![
            RawScope::Room {
                id: "living_scope".to_owned(),
                room: "living".to_owned(),
                curve: "daily".to_owned(),
            },
            RawScope::Floor {
                id: "ground_scope".to_owned(),
                floor: "ground".to_owned(),
                curve: "daily".to_owned(),
            },
            RawScope::House {
                id: "house_scope".to_owned(),
                curve: "daily".to_owned(),
            },
        ],
        devices: vec![
            lamp("sofa", "living"),
            lamp("shelf", "living"),
            lamp("counter", "kitchen"),
        ],
        groups: vec![RawGroup {
            id: "living_lamps".to_owned(),
            friendly_name: "living/all".to_owned(),
            members: vec!["sofa".to_owned(), "shelf".to_owned()],
            capabilities: lamp_capabilities(),
            single_transition_attribute: false,
        }],
        controls: vec![RawControl {
            id: "remote".to_owned(),
            aliases: vec!["old_remote".to_owned()],
            friendly_name: "living/remote".to_owned(),
            selected_scope: "living_scope".to_owned(),
            mappings: vec![
                mapping("center_single", "selected", RawAction::TogglePower),
                mapping(
                    "up",
                    "selected",
                    RawAction::AdjustBrightnessOffset { delta: d(0.1) },
                ),
                mapping(
                    "down",
                    "house_scope",
                    RawAction::AdjustColorTemperatureOffset {
                        delta_kelvin: d(-200.0),
                    },
                ),
                mapping(
                    "center_long",
                    "selected",
                    RawAction::ToggleCircadianWithAcknowledgement,
                ),
                mapping("hold_right", "house_scope", RawAction::SelectScope),
            ],
        }],
    }
}

fn monotonic(seconds: f64) -> MonotonicTime {
    MonotonicTime::from_seconds(d(seconds)).unwrap()
}

fn on_day(day: u8, hour: u8, minute: u8, seconds: f64) -> RuntimeInstant {
    RuntimeInstant::new(
        LocalDate::new(2026, 9, day).unwrap(),
        hour,
        minute,
        0,
        monotonic(seconds),
    )
    .unwrap()
}

/// Noon, `seconds` after the clock was started.
fn noon(seconds: f64) -> RuntimeInstant {
    on_day(13, 12, 0, seconds)
}

fn device(id: &str) -> DeviceId {
    DeviceId::new(id.to_owned()).unwrap()
}

fn remote() -> ControlId {
    ControlId::new("remote".to_owned()).unwrap()
}

fn room(id: &str) -> Scope {
    Scope::Room(ScopeId::new(id.to_owned()).unwrap())
}

fn floor(id: &str) -> Scope {
    Scope::Floor(ScopeId::new(id.to_owned()).unwrap())
}

fn engine() -> HouseEngine {
    HouseEngine::initialize(
        house().validate().unwrap(),
        AutomationState::default(),
        noon(0.0),
    )
    .unwrap()
}

fn target(engine: &HouseEngine, id: &str) -> LightTarget {
    engine.target(&device(id)).unwrap()
}

/// An engine whose living room has been switched on, at noon after two seconds.
fn lit() -> HouseEngine {
    let mut engine = engine();
    engine
        .apply_gesture_for_scope(Gesture::CenterSingle, &room("living"), noon(2.0))
        .unwrap();
    engine
}

/// Connects the broker and brings everything online; gives all actions.
fn connect(engine: &mut HouseEngine, now: MonotonicTime) -> Vec<ReconcileAction> {
    let reconciler = engine.reconciler_mut();
    let mut actions = reconciler.broker_connected(now).unwrap();
    for id in ["sofa", "shelf", "counter"] {
        actions.extend(
            reconciler
                .set_device_availability(&device(id), Availability::Online, now)
                .unwrap(),
        );
    }
    actions.extend(
        reconciler
            .set_bridge_availability(Availability::Online, now)
            .unwrap(),
    );
    actions
}

#[test]
fn newcomers_start_dark_under_their_narrowest_scope() {
    let mut engine = engine();
    assert!(engine.startup_state_changed());
    assert_eq!(engine.owner_scope(&device("sofa")).unwrap(), &room("living"));
    assert_eq!(
        engine.owner_scope(&device("old_counter")).unwrap(),
        &floor("ground")
    );
    assert!(matches!(
        engine.owner_scope(&device("lamp")),
        Err(RuntimeError::UnknownDevice)
    ));
    let owners = engine.owner_states().unwrap();
    assert_eq!(owners.len(), 2);
    assert!(owners.iter().all(|(_, state)| !state.is_on()));
    assert_eq!(engine.target(&device("sofa")), None);
    let (_, count) = engine.recompute_desired(noon(1.0)).unwrap();
    assert_eq!(count, 3);
    assert!(!target(&engine, "sofa").on);
}

#[test]
fn a_press_of_the_remote_switches_the_selected_room() {
    let mut engine = engine();
    let pressed = engine
        .handle_input(remote(), RawInputEvent::AmbiguousCenterPrefix, noon(1.0))
        .unwrap();
    assert!(pressed.is_empty());
    assert_eq!(
        engine.next_transient_deadline().map(|time| f(time.seconds())),
        Some(2.2)
    );
    assert!(engine.flush_input(noon(2.2)).unwrap().is_empty());
    let outcomes = engine.flush_input(noon(2.201)).unwrap();
    assert_eq!(outcomes.len(), 1);
    assert_eq!(outcomes[0].affected_owner_count, 1);
    assert_eq!(outcomes[0].acknowledged_owner_count, 0);
    assert_eq!(outcomes[0].recomputed_devices, 3);
    assert!(is_durable(&outcomes));
    let sofa = target(&engine, "sofa");
    assert!(sofa.on);
    assert_eq!(f(sofa.brightness.unwrap().get()), 0.8);
    assert_eq!(f(sofa.color_temperature.unwrap().get()), 3000.0);
    assert!(!target(&engine, "counter").on);
    assert_eq!(engine.next_transient_deadline(), None);
}

#[test]
fn offsets_reach_every_owner_in_their_target() {
    let mut engine = lit();
    engine
        .handle_input(remote(), RawInputEvent::Up, noon(3.0))
        .unwrap();
    engine
        .handle_input(remote(), RawInputEvent::Down, noon(4.0))
        .unwrap();
    let living = engine.state().scope_state(&room("living")).unwrap();
    assert_eq!(f(living.offsets().brightness()), 0.1);
    assert_eq!(f(living.offsets().color_temperature_kelvin()), -200.0);
    let ground = engine.state().scope_state(&floor("ground")).unwrap();
    assert_eq!(f(ground.offsets().brightness()), 0.0);
    assert_eq!(f(ground.offsets().color_temperature_kelvin()), -200.0);
    assert_eq!(
        f(target(&engine, "shelf").brightness.unwrap().get()),
        0.8 + 0.1
    );
    assert_eq!(
        f(target(&engine, "shelf").color_temperature.unwrap().get()),
        2800.0
    );
}

#[test]
fn selecting_a_scope_aims_the_remote_at_it() {
    let mut engine = engine();
    let outcomes = engine
        .handle_input(
            remote(),
            RawInputEvent::DirectionHold(Direction::Right),
            noon(1.0),
        )
        .unwrap();
    assert_eq!(outcomes.len(), 1);
    assert_eq!(outcomes[0].affected_owner_count, 0);
    assert_eq!(
        engine.state().control_state(&remote()).unwrap().selected_scope(),
        &Scope::House
    );
    engine
        .handle_input(remote(), RawInputEvent::AmbiguousCenterPrefix, noon(2.0))
        .unwrap();
    engine.flush_input(noon(4.0)).unwrap();
    assert!(target(&engine, "sofa").on);
    assert!(target(&engine, "counter").on);
}

#[test]
fn gestures_without_meaning_change_nothing() {
    let mut engine = engine();
    assert!(engine
        .handle_input(remote(), RawInputEvent::Left, noon(1.0))
        .unwrap()
        .is_empty());
    assert!(matches!(
        engine.apply_gesture_for_scope(Gesture::Left, &Scope::House, noon(1.0)),
        Err(RuntimeError::UnmappedGesture)
    ));
    assert!(matches!(
        engine.apply_gesture_for_scope(
            Gesture::DirectionHold(Direction::Right),
            &Scope::House,
            noon(1.0)
        ),
        Err(RuntimeError::InvalidTopology(_))
    ));
    assert!(matches!(
        engine.apply_gesture_for_scope(Gesture::Up, &room("attic"), noon(1.0)),
        Err(RuntimeError::InvalidTopology(_))
    ));
    assert!(matches!(
        engine.handle_input(
            ControlId::new("stranger".to_owned()).unwrap(),
            RawInputEvent::Up,
            noon(2.0)
        ),
        Err(RuntimeError::UnknownControl)
    ));
}

#[test]
fn freezing_keeps_the_light_and_acknowledges_it() {
    let mut engine = lit();
    let summary = engine
        .apply_gesture_for_scope(Gesture::CenterLong, &room("living"), noon(3.0))
        .unwrap();
    assert_eq!(summary.acknowledged_owner_count, 1);
    assert!(engine
        .state()
        .scope_state(&room("living"))
        .unwrap()
        .is_frozen());
    assert_eq!(
        engine.next_transient_deadline().map(|time| f(time.seconds())),
        Some(3.0 + 0.18)
    );
    engine.recompute_desired(on_day(13, 22, 0, 9.0)).unwrap();
    assert_eq!(f(target(&engine, "sofa").brightness.unwrap().get()), 0.8);

    engine
        .apply_gesture_for_scope(Gesture::CenterLong, &room("living"), on_day(13, 22, 0, 10.0))
        .unwrap();
    engine.recompute_desired(on_day(13, 22, 0, 10.5)).unwrap();
    let converging = f(target(&engine, "sofa").brightness.unwrap().get());
    assert!(converging < 0.8 && converging > 0.7);
    engine
        .recompute_desired(RuntimeInstant {
            local_time: house_automation::curve::TimeOfDay::from_hms(22, 0, 30).unwrap(),
            ..on_day(13, 22, 0, 41.0)
        })
        .unwrap();
    assert_eq!(f(target(&engine, "sofa").brightness.unwrap().get()), 0.3);
}

#[test]
fn a_struck_hour_brightens_for_a_moment() {
    let mut engine = lit();
    let before = engine.state().snapshot();
    assert_eq!(engine.start_whole_hour_overlay(noon(5.0)).unwrap(), 3);
    assert_eq!(
        f(target(&engine, "sofa").brightness.unwrap().get()),
        0.8 + 0.08
    );
    assert_eq!(engine.state().snapshot(), before);
    engine.recompute_desired(noon(5.6)).unwrap();
    assert_eq!(f(target(&engine, "sofa").brightness.unwrap().get()), 0.8);
}

#[test]
fn a_reset_happens_once_a_day() {
    let mut engine = lit();
    engine
        .apply_gesture_for_scope(Gesture::CenterLong, &room("living"), noon(3.0))
        .unwrap();
    assert!(!engine.reset_if_due(on_day(13, 12, 0, 4.0)).unwrap());
    assert!(!engine.reset_if_due(on_day(14, 3, 59, 5.0)).unwrap());
    assert!(engine.reset_if_due(on_day(14, 4, 0, 6.0)).unwrap());
    assert!(!engine
        .state()
        .scope_state(&room("living"))
        .unwrap()
        .is_frozen());
    assert!(!engine.reset_if_due(on_day(14, 5, 0, 7.0)).unwrap());
}

#[test]
fn small_changes_are_left_until_they_add_up() {
    let mut engine = lit();
    let _ = connect(&mut engine, monotonic(2.5));
    let _ = engine.take_reconcile_actions();
    let (actions, _) = engine.recompute_sparse(on_day(13, 12, 1, 62.0)).unwrap();
    assert!(actions.is_empty());
    let (actions, _) = engine.recompute_sparse(on_day(13, 16, 0, 120.0)).unwrap();
    assert!(actions
        .iter()
        .any(|action| matches!(action, ReconcileAction::Command { .. })));
}

#[test]
fn changes_are_measured_against_their_thresholds() {
    let mut engine = lit();
    let previous = target(&engine, "sofa");
    let mut next = previous;
    let exceeds = |next: &LightTarget| {
        target_change_exceeds_threshold(&previous, next, d(0.01), d(25.0))
    };
    assert!(!exceeds(&next));
    next.on = false;
    assert!(exceeds(&next));
    engine.recompute_desired(on_day(13, 12, 1, 62.0)).unwrap();
    assert!(!exceeds(&target(&engine, "sofa")));
    engine.recompute_desired(on_day(13, 18, 0, 63.0)).unwrap();
    assert!(exceeds(&target(&engine, "sofa")));
}

#[test]
fn permanent_adapter_plan_error_cancels_every_affected_dispatch_token() {
    let mut engine = lit();
    let actions = connect(&mut engine, monotonic(2.1));
    let mut token = None;
    let malformed: Vec<_> = actions
        .into_iter()
        .map(|action| match action {
            ReconcileAction::Command {
                token: command_token,
                target,
                ..
            } => {
                token.get_or_insert(command_token);
                ReconcileAction::Command {
                    token: command_token,
                    entity: CommandEntity::Device(device("unbound-device")),
                    target,
                }
            }
            other => other,
        })
        .collect();
    let token = token.expect("reconnect produces a command token");

    let error = engine
        .plan_operations(&malformed, monotonic(2.1), monotonic(2.1))
        .err()
        .unwrap();

    assert!(matches!(error, RuntimeError::Adapter(ref error) if error.is_permanent()));
    assert!(!engine.reconciler_mut().is_dispatch_token_valid(token));
}

#[test]
fn planned_operations_are_registered_with_the_reconciler() {
    let mut engine = lit();
    let actions = connect(&mut engine, monotonic(2.1));
    let plan = engine
        .plan_operations(&actions, monotonic(2.1), monotonic(2.1))
        .unwrap();
    assert!(!plan.dispatch_plans().is_empty());
    for dispatch in plan.dispatch_plans() {
        assert!(engine
            .reconciler_mut()
            .is_dispatch_token_valid(dispatch.token()));
    }
    assert!(plan
        .operations()
        .iter()
        .any(|operation| matches!(operation, AdapterOperation::Subscribe(_))));
}

#[test]
fn messages_are_heard_and_acted_upon() {
    let mut engine = lit();
    let hear = |engine: &HouseEngine, topic: &str, payload: &[u8]| {
        engine
            .hear(&InboundMessage::new(
                topic,
                payload,
                false,
                false,
                Qos::AtLeastOnce,
            ))
            .unwrap()
    };
    assert!(matches!(
        hear(&engine, "elsewhere/state", b"{}"),
        Hearing::Nothing
    ));
    assert!(matches!(
        hear(&engine, "zigbee2mqtt/bridge/state", b"["),
        Hearing::Malformed { bridge: true }
    ));
    assert!(matches!(
        hear(&engine, "zigbee2mqtt/living/sofa", b"["),
        Hearing::Malformed { bridge: false }
    ));
    let Hearing::Event(event) = hear(&engine, "zigbee2mqtt/bridge/state", b"online") else {
        panic!("expected an event")
    };
    assert_eq!(
        event,
        InboundEvent::BridgeAvailability(Availability::Online)
    );
    engine
        .reconciler_mut()
        .broker_connected(monotonic(2.0))
        .unwrap();
    assert!(engine.react(&event, monotonic(2.0)).unwrap().is_some());
    assert_eq!(
        engine.reconciler_mut().bridge_availability(),
        Availability::Online
    );
    let Hearing::Event(pressed) =
        hear(&engine, "zigbee2mqtt/living/remote", br#"{"action":"arrow_left_click"}"#)
    else {
        panic!("expected an event")
    };
    assert!(engine.react(&pressed, monotonic(3.0)).unwrap().is_none());
}

#[test]
fn durable_changes_are_saved_before_they_are_adopted() {
    let engine = engine();
    let (next, adoption) = engine
        .try_input(remote(), RawInputEvent::Up, noon(1.0))
        .unwrap();
    assert!(matches!(adoption, Adoption::SaveFirst));
    assert!(!are_alike(engine.state(), next.state()));

    let (next, adoption) = next
        .try_input(remote(), RawInputEvent::AmbiguousCenterPrefix, noon(2.0))
        .unwrap();
    assert!(matches!(adoption, Adoption::Adopt));
    let (ticked, adoption) = next.begin_tick(noon(3.3)).unwrap();
    assert!(matches!(adoption, Adoption::SaveFirst));
    assert!(target(&ticked, "sofa").on);
    let (_, adoption) = ticked.begin_tick(noon(3.4)).unwrap();
    assert!(matches!(adoption, Adoption::Discard | Adoption::Adopt));
    assert!(ticked.try_reset(noon(3.5)).unwrap().is_none());
    assert!(ticked.try_reset(on_day(14, 4, 0, 4.0)).unwrap().is_some());
}

#[test]
fn delayed_operations_wait_for_their_time() {
    let mut engine = lit();
    let actions = connect(&mut engine, monotonic(2.1));
    let plan = engine
        .plan_operations(&actions, monotonic(2.1), monotonic(2.1))
        .unwrap();
    let mut agenda = Agenda::new();
    let mut immediate = 0;
    let mut later = 0;
    for operation in plan.operations {
        let AdapterOperation::Publish(mut delayed) = operation else {
            continue;
        };
        delayed.not_before_ms = if later == 0 { 750 } else { 0 };
        match agenda
            .schedule(AdapterOperation::Publish(delayed), monotonic(2.0))
            .unwrap()
        {
            Some(_) => immediate += 1,
            None => later += 1,
        }
    }
    assert_eq!(later, 1);
    assert!(immediate > 0);
    assert_eq!(agenda.next_due().map(f), Some(2.75));
    assert!(agenda.take_due(monotonic(2.7)).is_empty());
    assert_eq!(agenda.take_due(monotonic(2.75)).len(), 1);
    assert_eq!(agenda.next_due(), None);
    agenda.clear();
    assert_eq!(agenda.next_due(), None);
}

#[test]
fn the_next_pause_ends_with_the_earliest_deadline() {
    let now = monotonic(10.0);
    assert_eq!(f(next_delay(None, None, d(30.0), d(60.0), now)), 30.0);
    assert_eq!(
        f(next_delay(
            Some(monotonic(12.0)),
            Some(d(11.5)),
            d(30.0),
            d(60.0),
            now
        )),
        1.5
    );
    assert_eq!(
        f(next_delay(Some(monotonic(9.0)), None, d(30.0), d(60.0), now)),
        0.001
    );
}

#[test]
fn stored_state_is_kept_where_the_house_still_has_it() {
    let parts = house().validate().unwrap();
    let mut persisted = AutomationState::default();
    persisted
        .insert_scope(room("living"), ScopeState::new(true))
        .unwrap();
    persisted
        .insert_scope(room("attic"), ScopeState::new(true))
        .unwrap();
    persisted
        .insert_control(remote(), ControlState::new(room("attic")))
        .unwrap();
    let state = normalize_state(&persisted, &parts.scopes, &parts.controls).unwrap();
    assert!(state.scope_state(&room("living")).unwrap().is_on());
    assert!(!state.scope_state(&Scope::House).unwrap().is_on());
    assert!(state.scope_state(&room("attic")).is_err());
    assert_eq!(
        state.control_state(&remote()).unwrap().selected_scope(),
        &room("living")
    );
    assert!(are_alike(&state, &state.copied()));
    assert!(!are_alike(&state, &persisted));
}

#[test]
fn a_restarted_engine_keeps_its_lights() {
    let before = lit();
    let mut after = HouseEngine::initialize(
        house().validate().unwrap(),
        before.state().copied(),
        noon(0.5),
    )
    .unwrap();
    assert!(!after.startup_state_changed());
    after.recompute_desired(noon(1.0)).unwrap();
    assert_eq!(target(&after, "sofa"), target(&before, "sofa"));
}

fn sample(now: RuntimeInstant) -> ClockSample {
    ClockSample {
        wall: WallTime {
            unix_seconds: 1_789_300_800,
            minute: 0,
            second: 0,
        },
        runtime: now,
        unix_seconds: 1_789_300_800,
    }
}

fn actor() -> RuntimeActor {
    let mut health = HealthState::new();
    health.set_database_migrated(true);
    RuntimeActor::new(lit(), &sample(noon(2.5)), health).unwrap()
}

fn publish(topic: &str, payload: &[u8]) -> TransportEvent {
    TransportEvent::Publish(OwnedInboundMessage {
        topic: topic.to_owned(),
        payload: payload.to_vec(),
        retain: false,
        duplicate: false,
        qos: Qos::AtLeastOnce,
    })
}

#[test]
fn a_service_starts_with_targets_and_nothing_to_send() {
    let mut actor = actor();
    assert!(target(actor.engine(), "sofa").on);
    assert!(actor.engine.take_reconcile_actions().is_empty());
    assert!(!actor.health.snapshot().ready());
}

#[test]
fn a_service_is_ready_once_broker_and_bridge_are_there() {
    let mut actor = actor();
    let Ok(Reply::Greet(actions)) =
        actor.handle_transport_event(&TransportEvent::Connected, noon(3.0))
    else {
        panic!("expected a greeting")
    };
    assert!(matches!(actions[0], ReconcileAction::Resubscribe));
    assert_eq!(
        actions[1..4]
            .iter()
            .filter(|action| matches!(action, ReconcileAction::RequestState(_)))
            .count(),
        3
    );
    assert!(!actor.health.mqtt_connected);
    actor.greeted();
    assert!(!actor.health.snapshot().ready());
    assert!(matches!(
        actor.handle_transport_event(
            &publish("zigbee2mqtt/bridge/state", br#"{"state":"online"}"#),
            noon(3.1)
        ),
        Ok(Reply::Send(_))
    ));
    assert!(actor.health.snapshot().ready());
    assert!(matches!(
        actor.handle_transport_event(&publish("zigbee2mqtt/bridge/state", b"["), noon(3.2)),
        Ok(Reply::Nothing)
    ));
    assert!(!actor.health.snapshot().ready());
}

#[test]
fn a_lost_broker_withdraws_everything() {
    let mut actor = actor();
    let actions = connect(&mut actor.engine, monotonic(3.0));
    actor.greeted();
    let plan = actor
        .engine
        .plan_operations(&actions, monotonic(3.0), monotonic(3.0))
        .unwrap();
    let token = plan.dispatch_plans()[0].token();
    assert!(actor.engine.reconciler_mut().is_dispatch_token_valid(token));
    for operation in plan.operations {
        if let AdapterOperation::Publish(mut delayed) = operation {
            delayed.not_before_ms = 500;
            let waits = actor
                .agenda
                .schedule(AdapterOperation::Publish(delayed), monotonic(3.0))
                .unwrap();
            assert!(waits.is_none());
        }
    }
    assert!(actor.agenda.next_due().is_some());

    assert!(matches!(
        actor.handle_transport_event(&TransportEvent::Disconnected, noon(3.1)),
        Ok(Reply::Nothing)
    ));
    assert_eq!(actor.agenda.next_due(), None);
    assert!(!actor.engine.reconciler_mut().is_dispatch_token_valid(token));
    assert_eq!(
        actor.engine.reconciler_mut().transport_status(),
        TransportStatus::Disconnected
    );
    assert!(!actor.health.snapshot().ready());
}

#[test]
fn input_is_tried_before_it_is_taken_over() {
    let mut actor = actor();
    let Ok(Reply::TakeOver(next, adoption)) = actor.handle_transport_event(
        &publish(
            "zigbee2mqtt/living/remote",
            br#"{"action":"brightness_up_click"}"#,
        ),
        noon(3.0),
    ) else {
        panic!("expected an engine")
    };
    assert!(matches!(adoption, Adoption::SaveFirst));
    assert_eq!(
        f(target(actor.engine(), "sofa").brightness.unwrap().get()),
        0.8
    );
    actor.take_over(next);
    assert_eq!(
        f(target(actor.engine(), "sofa").brightness.unwrap().get()),
        0.8 + 0.1
    );
}

#[test]
fn a_tick_looks_at_the_clocks_and_a_pause_ends_with_the_next_event() {
    let mut actor = actor();
    let (due, _, adoption) = actor.tick(&sample(noon(3.0))).unwrap().unwrap();
    assert!(due.curve_tick && due.whole_hour);
    assert!(matches!(adoption, Adoption::Discard));
    assert_eq!(
        actor.next_delay(&sample(noon(3.0))),
        Pause { seconds: 30, nanos: 0 }
    );
    let (due, _, _) = actor.tick(&sample(noon(4.0))).unwrap().unwrap();
    assert!(!due.curve_tick && !due.whole_hour);
    assert_eq!(
        actor.next_delay(&sample(noon(13.0))),
        Pause { seconds: 20, nanos: 0 }
    );
}

#[test]
fn complete_batches_and_stopped_writers_show_in_the_health() {
    let mut actor = actor();
    actor.accepted(DispatchAcceptance::OperationAccepted { remaining: 1 }, 7);
    assert_eq!(
        actor.health.last_successful_reconciliation_unix_seconds,
        None
    );
    actor.accepted(DispatchAcceptance::BatchAccepted, 8);
    assert_eq!(
        actor.health.last_successful_reconciliation_unix_seconds,
        Some(8)
    );
    actor.writer_stopped();
    assert!(!actor.health.database_migrated);
}

#[test]
fn a_stopping_service_takes_nothing_in() {
    let mut actor = actor();
    actor.greeted();
    assert!(actor.shutdown());
    assert!(!actor.shutdown());
    assert!(!actor.health.mqtt_connected);
    assert!(matches!(
        actor.handle_transport_event(&TransportEvent::Connected, noon(3.0)),
        Ok(Reply::Nothing)
    ));
    assert_eq!(
        actor.engine.reconciler_mut().transport_status(),
        TransportStatus::Disconnected
    );
    assert!(actor.tick(&sample(noon(3.0))).unwrap().is_none());
}
