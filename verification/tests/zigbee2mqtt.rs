use serde_json::Value;

use house_automation::double::Double;
use house_automation::input::{Direction, Gesture, RawInputEvent};
use house_automation::reconcile::{
    Availability, CommandEntity, DeviceDefinition, DeviceId, DispatchToken, EntityId,
    ReconcileAction, RetryPolicy,
};
use house_automation::reconciler::{DispatchClaim, Reconciler};
use house_automation::state::{ControlId, MonotonicTime};
use house_automation::value::{
    Brightness, Capabilities, Color, DeviceTarget, Kelvin, KelvinRange, LightTarget,
};
use house_automation::zigbee2mqtt::{
    AdapterError, AdapterOperation, AdapterPlan, ControlBinding, DeviceBinding, GroupBinding,
    InboundEvent, InboundMessage, MiredRange, PayloadField, PayloadValue, PlanEpoch, Publication,
    Qos,
    Subscription, Zigbee2MqttAdapter, MAX_COMMAND_TRANSITION_MS, MAX_UNKNOWN_ACTION_LENGTH,
};

const IKEA_LIGHT_STATE: &[u8] =
    br#"{"state":"ON","brightness":127,"color_temp":370,"color_mode":"color_temp","linkquality":120}"#;
const HUE_PARTIAL_STATE: &[u8] =
    br#"{"color":{"hue":210,"saturation":65},"color_mode":"hs","update":{"state":"idle"},"linkquality":87}"#;
const COLOR_MODE_STATES: &[u8] = br#"[
    {"name":"color temperature","payload":{"color_mode":"color_temp","color_temp":370,
        "color":{"x":0.31,"y":0.33,"hue":210,"saturation":65}}},
    {"name":"xy","payload":{"color_mode":"xy","color_temp":370,"color":{"x":0.31,"y":0.33}}},
    {"name":"hs","payload":{"color_mode":"hs","color_temp":370,"color":{"hue":210,"saturation":65}}},
    {"name":"no mode","payload":{"color_temp":370,"color":{"x":0.31,"y":0.33}}},
    {"name":"unknown mode","payload":{"color_mode":"effect","color_temp":370,"color":{"x":0.31,"y":0.33}}}
]"#;
const BRIDGE_ONLINE: &[u8] = br#"{"state":"online"}"#;
const DEVICE_OFFLINE: &[u8] = br#"{"state":"offline"}"#;
const REMOTE_ACTIONS: &[u8] = br#"[
    {"action":"toggle"},
    {"action":"toggle_hold"},
    {"action":"brightness_up_click"},
    {"action":"brightness_up_hold"},
    {"action":"brightness_up_release"},
    {"action":"brightness_down_click"},
    {"action":"brightness_down_hold"},
    {"action":"brightness_down_release"},
    {"action":"arrow_left_click"},
    {"action":"arrow_left_hold"},
    {"action":"arrow_left_release"},
    {"action":"arrow_right_click"},
    {"action":"arrow_right_hold"},
    {"action":"arrow_right_release"}
]"#;

fn d(value: f64) -> Double {
    Double::from_bits(value.to_bits())
}

fn f(value: Double) -> f64 {
    f64::from_bits(value.to_bits())
}

fn device_id(value: &str) -> DeviceId {
    DeviceId::new(value.to_owned()).unwrap()
}

fn control_id(value: &str) -> ControlId {
    ControlId::new(value.to_owned()).unwrap()
}

fn entity_id(value: &str) -> EntityId {
    EntityId::new(value.to_owned()).unwrap()
}

fn capabilities() -> Capabilities {
    Capabilities {
        on_off: true,
        dimming: true,
        color_temperature: Some(KelvinRange::new(d(2200.0), d(6500.0)).unwrap()),
        color_xy: true,
        color_hs: true,
        input: false,
        occupancy: false,
        temperature: false,
        power_metering: false,
    }
}

fn connect(reconciler: &mut Reconciler) {
    let now = MonotonicTime::from_seconds(d(0.0)).unwrap();
    reconciler.broker_connected(now).unwrap();
    for device in reconciler.ids.clone() {
        reconciler
            .set_device_availability(&device, Availability::Online, now)
            .unwrap();
    }
    reconciler
        .set_bridge_availability(Availability::Online, now)
        .unwrap();
}

fn dispatch_token() -> DispatchToken {
    let lamp = device_id("token_lamp");
    let mut reconciler = Reconciler::new(
        vec![DeviceDefinition::new(lamp.clone(), capabilities())],
        Vec::new(),
        RetryPolicy::new(d(2.0), 3).unwrap(),
    )
    .unwrap();
    connect(&mut reconciler);
    let actions = reconciler
        .set_device_desired(
            &lamp,
            LightTarget {
                on: true,
                brightness: None,
                color_temperature: None,
                color: None,
                transition_ms: None,
            },
            MonotonicTime::from_seconds(d(1.0)).unwrap(),
        )
        .unwrap();
    let ReconcileAction::Command { token, .. } = actions[0] else {
        unreachable!()
    };
    token
}

fn distinct_dispatch_tokens() -> (DispatchToken, DispatchToken) {
    let first = device_id("first_token_lamp");
    let second = device_id("second_token_lamp");
    let mut reconciler = Reconciler::new(
        vec![
            DeviceDefinition::new(first.clone(), capabilities()),
            DeviceDefinition::new(second.clone(), capabilities()),
        ],
        Vec::new(),
        RetryPolicy::new(d(2.0), 3).unwrap(),
    )
    .unwrap();
    connect(&mut reconciler);
    let first_actions = reconciler
        .set_device_desired(
            &first,
            LightTarget {
                on: true,
                brightness: None,
                color_temperature: None,
                color: None,
                transition_ms: None,
            },
            MonotonicTime::from_seconds(d(1.0)).unwrap(),
        )
        .unwrap();
    let second_actions = reconciler
        .set_device_desired(
            &second,
            LightTarget {
                on: true,
                brightness: None,
                color_temperature: None,
                color: None,
                transition_ms: None,
            },
            MonotonicTime::from_seconds(d(1.0)).unwrap(),
        )
        .unwrap();
    let ReconcileAction::Command { token: first, .. } = first_actions[0] else {
        unreachable!()
    };
    let ReconcileAction::Command { token: second, .. } = second_actions[0] else {
        unreachable!()
    };
    (first, second)
}

fn plan_epoch() -> PlanEpoch {
    PlanEpoch::new(MonotonicTime::from_seconds(d(42.0)).unwrap())
}

fn parse(
    adapter: &Zigbee2MqttAdapter,
    topic: &str,
    payload: &[u8],
) -> Result<Option<InboundEvent>, AdapterError> {
    adapter.parse(&InboundMessage::new(
        topic,
        payload,
        false,
        false,
        Qos::AtLeastOnce,
    ))
}

fn publications(plan: &AdapterPlan) -> Vec<&Publication> {
    plan.operations()
        .iter()
        .filter_map(AdapterOperation::publication)
        .collect()
}

fn subscriptions(plan: &AdapterPlan) -> Vec<&Subscription> {
    plan.operations()
        .iter()
        .filter_map(AdapterOperation::subscription)
        .collect()
}

fn adapter(single_transition_attribute: bool) -> Zigbee2MqttAdapter {
    Zigbee2MqttAdapter::new(
        "zigbee2mqtt".to_owned(),
        vec![
            DeviceBinding::new(
                device_id("ikea_lamp"),
                "living/ikea lamp".to_owned(),
                capabilities(),
                Some(MiredRange::new(250, 454).unwrap()),
                single_transition_attribute,
            )
            .unwrap(),
            DeviceBinding::new(
                device_id("hue_lamp"),
                "living/hue lamp".to_owned(),
                capabilities(),
                Some(MiredRange::new(153, 500).unwrap()),
                false,
            )
            .unwrap(),
        ],
        vec![
            GroupBinding::new(
                entity_id("living_group"),
                "living/all lights".to_owned(),
                Some(MiredRange::new(153, 500).unwrap()),
                false,
            )
            .unwrap(),
        ],
        vec![ControlBinding::new(control_id("living_remote"), "living/remote".to_owned()).unwrap()],
    )
    .unwrap()
}

fn command_target() -> DeviceTarget {
    DeviceTarget {
        on: Some(true),
        brightness: Some(Brightness::new(d(0.5)).unwrap()),
        color_temperature: Some(Kelvin::new(d(2700.0)).unwrap()),
        color: None,
        transition_ms: Some(750),
    }
}

fn target_for_test(brightness: Double) -> LightTarget {
    LightTarget {
        on: true,
        brightness: Some(Brightness::new(brightness).unwrap()),
        color_temperature: Some(Kelvin::new(d(2700.0)).unwrap()),
        color: None,
        transition_ms: Some(750),
    }
}

fn json(text: &str) -> Value {
    serde_json::from_str(text).unwrap()
}

fn object(publication: &Publication) -> Value {
    serde_json::from_slice(&publication.payload().unwrap()).unwrap()
}

#[test]
fn exact_configured_friendly_names_may_contain_slashes() {
    let adapter = adapter(false);
    let event = parse(
        &adapter,
        "zigbee2mqtt/living/ikea lamp",
        IKEA_LIGHT_STATE,
    )
    .unwrap();

    let InboundEvent::DeviceState { device, state } = event.unwrap() else {
        panic!("expected device state");
    };
    assert_eq!(device, device_id("ikea_lamp"));
    assert_eq!(state.on, Some(true));
    assert_eq!(state.brightness.unwrap().get(), d(0.5));
    assert!((f(state.color_temperature.unwrap().get()) - (1_000_000.0 / 370.0)).abs() < 0.01);
}

#[test]
fn ambiguous_external_topics_are_rejected_at_configuration_time() {
    let range = MiredRange::new(250, 454).unwrap();
    let duplicate_groups = Zigbee2MqttAdapter::new(
        "zigbee2mqtt".to_owned(),
        Vec::new(),
        vec![
            GroupBinding::new(entity_id("group_a"), "same/topic".to_owned(), Some(range), false).unwrap(),
            GroupBinding::new(entity_id("group_b"), "same/topic".to_owned(), Some(range), false).unwrap(),
        ],
        Vec::new(),
    );
    assert!(duplicate_groups.is_err());

    assert!(
        DeviceBinding::new(
            device_id("looks_like_availability"),
            "room/lamp/availability".to_owned(),
            capabilities(),
            Some(range),
            false,
        )
        .is_err()
    );

    for forbidden in ["1234", "room/1234", "room/left", "room/right", "room/set"] {
        assert!(
            DeviceBinding::new(
                device_id("lamp"),
                forbidden.to_owned(),
                capabilities(),
                Some(range),
                false,
            )
            .is_err(),
            "accepted forbidden terminal segment {forbidden:?}"
        );
    }
}

#[test]
fn partial_hue_state_ignores_unknown_fields() {
    let event = parse(
        &adapter(false),
        "zigbee2mqtt/living/hue lamp",
        HUE_PARTIAL_STATE,
    )
    .unwrap()
    .unwrap();
    let InboundEvent::DeviceState { state, .. } = event else {
        panic!("expected device state");
    };
    assert_eq!(state.on, None);
    assert_eq!(state.brightness, None);
    assert_eq!(state.color.unwrap().hs_components(), Some((d(210.0), d(0.65))));
}

#[test]
fn cached_color_representations_follow_reported_active_color_mode() {
    let fixture: Vec<Value> =
        serde_json::from_slice(COLOR_MODE_STATES)
            .unwrap();
    let mut states = Vec::new();
    for case in fixture {
        let payload = serde_json::to_vec(&case["payload"]).unwrap();
        let event = parse(&adapter(false), "zigbee2mqtt/living/hue lamp", &payload)
            .unwrap()
            .unwrap();
        let InboundEvent::DeviceState { state, .. } = event else {
            panic!("expected device state for {}", case["name"])
        };
        states.push(state);
    }

    assert!(states[0].color_temperature.is_some());
    assert!(states[0].color.is_none());
    assert!(states[1].color_temperature.is_none());
    assert_eq!(states[1].color.unwrap().xy_components(), Some((d(0.31), d(0.33))));
    assert!(states[2].color_temperature.is_none());
    assert_eq!(
        states[2].color.unwrap().hs_components(),
        Some((d(210.0), d(0.65)))
    );
    for ambiguous in &states[3..] {
        assert!(ambiguous.color_temperature.is_none());
        assert!(ambiguous.color.is_none());
    }
}

#[test]
fn bridge_and_device_availability_are_parsed() {
    let adapter = adapter(false);
    assert_eq!(
        parse(
            &adapter,
            "zigbee2mqtt/bridge/state",
            BRIDGE_ONLINE,
        )
        .unwrap(),
        Some(InboundEvent::BridgeAvailability(Availability::Online))
    );
    assert_eq!(
        parse(
            &adapter,
            "zigbee2mqtt/living/ikea lamp/availability",
            DEVICE_OFFLINE,
        )
        .unwrap(),
        Some(InboundEvent::DeviceAvailability {
            device: device_id("ikea_lamp"),
            availability: Availability::Offline,
        })
    );
}

#[test]
fn all_verified_remote_actions_normalize_without_vendor_strings() {
    let fixture: Vec<Value> =
        serde_json::from_slice(REMOTE_ACTIONS)
            .unwrap();
    let expected = [
        RawInputEvent::AmbiguousCenterPrefix,
        RawInputEvent::CenterLong,
        RawInputEvent::Up,
        RawInputEvent::DirectionHold(Direction::Up),
        RawInputEvent::DirectionRelease(Direction::Up),
        RawInputEvent::Down,
        RawInputEvent::DirectionHold(Direction::Down),
        RawInputEvent::DirectionRelease(Direction::Down),
        RawInputEvent::Left,
        RawInputEvent::DirectionHold(Direction::Left),
        RawInputEvent::DirectionRelease(Direction::Left),
        RawInputEvent::Right,
        RawInputEvent::DirectionHold(Direction::Right),
        RawInputEvent::DirectionRelease(Direction::Right),
    ];
    assert_eq!(fixture.len(), expected.len());

    for (payload, expected) in fixture.iter().zip(expected) {
        assert_eq!(
            parse(
                &adapter(false),
                "zigbee2mqtt/living/remote",
                serde_json::to_vec(payload).unwrap().as_slice(),
            )
            .unwrap(),
            Some(InboundEvent::Input {
                control: control_id("living_remote"),
                event: expected,
            })
        );
    }

    let _: Gesture = Gesture::DirectionHold(Direction::Left);
}

#[test]
fn unknown_remote_action_is_reportable_not_a_stream_error() {
    assert_eq!(
        parse(
            &adapter(false),
            "zigbee2mqtt/living/remote",
            br#"{"action":"future_gesture"}"#,
        )
        .unwrap(),
        Some(InboundEvent::UnknownInputAction {
            control: control_id("living_remote"),
            action: "future_gesture".to_owned(),
        })
    );

    let long_action = "é".repeat(100);
    let payload = format!("{{\"action\":\"{long_action}\"}}").into_bytes();
    let event = parse(&adapter(false), "zigbee2mqtt/living/remote", &payload)
        .unwrap()
        .unwrap();
    let InboundEvent::UnknownInputAction { action, .. } = event else {
        panic!("expected bounded unknown action")
    };
    assert!(action.len() <= MAX_UNKNOWN_ACTION_LENGTH);
    assert!(action.is_char_boundary(action.len()));
}

#[test]
fn invalid_protocol_values_have_contextual_errors() {
    let adapter = adapter(false);
    for payload in [
        br#"{"brightness":255}"#.as_slice(),
        br#"{"color_temp":249}"#.as_slice(),
        br#"{"color":{"x":1.2,"y":0.4}}"#.as_slice(),
        br#"{"state":"TOGGLE"}"#.as_slice(),
        br#"{"brightness":"bright"}"#.as_slice(),
    ] {
        let error = parse(&adapter, "zigbee2mqtt/living/ikea lamp", payload).unwrap_err();
        assert!(error.text().contains("living/ikea lamp"), "{}", error.text());
    }
}

#[test]
fn combined_capable_command_uses_exact_fields_and_is_never_retained() {
    let plan = adapter(false)
        .apply_actions(
            plan_epoch(),
            &vec![ReconcileAction::Command {
                token: dispatch_token(),
                entity: CommandEntity::Device(device_id("ikea_lamp")),
                target: command_target(),
            }],
        )
        .unwrap();
    let publications = publications(&plan);
    assert_eq!(publications.len(), 1);
    let publication = publications[0];
    assert_eq!(publication.topic(), "zigbee2mqtt/living/ikea lamp/set");
    assert!(!publication.retain());
    assert_eq!(
        object(publication),
        json(r#"{ "state": "ON", "brightness": 127, "color_temp": 370, "transition": 0.75 }"#)
    );
}

#[test]
fn empty_command_is_a_permanent_adapter_error_not_an_unregistered_plan() {
    let error = adapter(false)
        .apply_actions(
            plan_epoch(),
            &vec![ReconcileAction::Command {
                token: dispatch_token(),
                entity: CommandEntity::Device(device_id("ikea_lamp")),
                target: DeviceTarget {
                    on: None,
                    brightness: None,
                    color_temperature: None,
                    color: None,
                    transition_ms: None,
                },
            }],
        )
        .unwrap_err();

    assert!(error.is_permanent());
}

#[test]
fn single_attribute_transition_splits_brightness_and_cct_sparsely() {
    let plan = adapter(true)
        .apply_actions(
            plan_epoch(),
            &vec![ReconcileAction::Command {
                token: dispatch_token(),
                entity: CommandEntity::Device(device_id("ikea_lamp")),
                target: command_target(),
            }],
        )
        .unwrap();
    let publications = publications(&plan);
    assert_eq!(publications.len(), 2);
    assert_eq!(
        object(publications[0]),
        json(r#"{"state":"ON", "brightness":127, "transition":0.75}"#)
    );
    assert_eq!(
        object(publications[1]),
        json(r#"{"color_temp":370, "transition":0.75}"#)
    );
    assert!(publications.iter().all(|publication| !publication.retain()));
}

#[test]
fn explicit_color_wins_over_cct_and_hs_saturation_scales_to_percent() {
    let target = DeviceTarget {
        on: Some(true),
        brightness: None,
        color_temperature: Some(Kelvin::new(d(3000.0)).unwrap()),
        color: Some(Color::hs(d(120.0), d(0.25)).unwrap()),
        transition_ms: None,
    };
    let plan = adapter(false)
        .apply_actions(
            plan_epoch(),
            &vec![ReconcileAction::Command {
                token: dispatch_token(),
                entity: CommandEntity::Device(device_id("hue_lamp")),
                target,
            }],
        )
        .unwrap();
    let publications = publications(&plan);
    assert_eq!(
        object(publications[0]),
        json(r#"{"state":"ON", "color":{"hue":120.0,"saturation":25.0}}"#)
    );
}

#[test]
fn kelvin_to_mired_rounds_and_clamps_to_configured_device_bounds() {
    let adapter = adapter(false);
    for (kelvin, expected) in [(d(4000.0), 250), (d(2700.0), 370), (d(1800.0), 454), (d(6500.0), 250)] {
        let target = DeviceTarget {
            on: None,
            brightness: None,
            color_temperature: Some(Kelvin::new(kelvin).unwrap()),
            color: None,
            transition_ms: None,
        };
        let plan = adapter
            .apply_actions(
                plan_epoch(),
                &vec![ReconcileAction::Command {
                    token: dispatch_token(),
                    entity: CommandEntity::Device(device_id("ikea_lamp")),
                    target,
                }],
            )
            .unwrap();
        assert_eq!(object(publications(&plan)[0])["color_temp"], expected);
    }
}

#[test]
fn reconnect_plan_subscribes_and_nonretained_reads_exact_topics() {
    let adapter = adapter(false);
    let plan: AdapterPlan = adapter
        .apply_actions(
            plan_epoch(),
            &vec![
                ReconcileAction::Resubscribe,
                ReconcileAction::RequestState(device_id("ikea_lamp")),
            ],
        )
        .unwrap();
    let subscriptions = subscriptions(&plan);
    let publications = publications(&plan);
    assert!(
        subscriptions
            .iter()
            .any(|subscription| subscription.topic() == "zigbee2mqtt/bridge/state")
    );
    assert!(
        subscriptions
            .iter()
            .any(|subscription| subscription.topic() == "zigbee2mqtt/living/ikea lamp")
    );
    assert_eq!(publications[0].topic(), "zigbee2mqtt/living/ikea lamp/get");
    assert_eq!(
        object(publications[0]),
        json(r#"{ "state":"", "brightness":"", "color_temp":"", "color":{"hue":"", "saturation":"", "x":"", "y":""} }"#)
    );
    assert!(!publications[0].retain());
}

#[test]
fn group_command_uses_configured_group_topic() {
    let plan = adapter(false)
        .apply_actions(
            plan_epoch(),
            &vec![ReconcileAction::Command {
                token: dispatch_token(),
                entity: CommandEntity::Group(entity_id("living_group")),
                target: command_target(),
            }],
        )
        .unwrap();
    let publications = publications(&plan);
    assert_eq!(publications[0].topic(), "zigbee2mqtt/living/all lights/set");
}

#[test]
fn group_mired_range_is_optional_until_a_cct_target_is_emitted() {
    let adapter = Zigbee2MqttAdapter::new(
        "zigbee2mqtt".to_owned(),
        Vec::new(),
        vec![GroupBinding::new(entity_id("rgb_group"), "rgb group".to_owned(), None, false).unwrap()],
        Vec::new(),
    )
    .unwrap();
    let token = dispatch_token();
    let rgb = DeviceTarget {
        on: Some(true),
        brightness: None,
        color_temperature: Some(Kelvin::new(d(2700.0)).unwrap()),
        color: Some(Color::xy(d(0.2), d(0.3)).unwrap()),
        transition_ms: None,
    };
    assert!(
        adapter
            .apply_actions(
                plan_epoch(),
                &vec![ReconcileAction::Command {
                    token,
                    entity: CommandEntity::Group(entity_id("rgb_group")),
                    target: rgb,
                }],
            )
            .is_ok()
    );

    let cct = DeviceTarget {
        on: None,
        brightness: None,
        color_temperature: Some(Kelvin::new(d(2700.0)).unwrap()),
        color: None,
        transition_ms: None,
    };
    let error = adapter
        .apply_actions(
            plan_epoch(),
            &vec![ReconcileAction::Command {
                token,
                entity: CommandEntity::Group(entity_id("rgb_group")),
                target: cct,
            }],
        )
        .unwrap_err();
    assert!(error.is_permanent());
}

#[test]
fn retained_controls_are_ignored_but_qos0_dup_controls_and_retained_state_are_accepted() {
    let adapter = adapter(false);
    let control = InboundMessage::new(
        "zigbee2mqtt/living/remote",
        br#"{"action":"toggle"}"#,
        true,
        false,
        Qos::AtMostOnce,
    );
    assert_eq!(adapter.parse(&control).unwrap(), None);
    let duplicate = InboundMessage::new(
        "zigbee2mqtt/living/remote",
        br#"{"action":"toggle"}"#,
        false,
        true,
        Qos::AtMostOnce,
    );
    assert_eq!(
        adapter.parse(&duplicate).unwrap(),
        Some(InboundEvent::Input {
            control: control_id("living_remote"),
            event: RawInputEvent::AmbiguousCenterPrefix,
        })
    );

    let state = InboundMessage::new(
        "zigbee2mqtt/living/ikea lamp",
        IKEA_LIGHT_STATE,
        true,
        false,
        Qos::AtLeastOnce,
    );
    assert!(matches!(
        adapter.parse(&state).unwrap(),
        Some(InboundEvent::DeviceState { .. })
    ));
    let availability = InboundMessage::new(
        "zigbee2mqtt/living/ikea lamp/availability",
        DEVICE_OFFLINE,
        true,
        false,
        Qos::AtLeastOnce,
    );
    assert!(matches!(
        adapter.parse(&availability).unwrap(),
        Some(InboundEvent::DeviceAvailability { .. })
    ));
}

#[test]
fn plan_has_strict_subscribe_read_command_phases_and_explicit_qos() {
    let actions = vec![
        ReconcileAction::Command {
            token: dispatch_token(),
            entity: CommandEntity::Device(device_id("ikea_lamp")),
            target: command_target(),
        },
        ReconcileAction::RequestState(device_id("ikea_lamp")),
        ReconcileAction::Resubscribe,
    ];
    let plan = adapter(false)
        .apply_actions(plan_epoch(), &actions)
        .unwrap();
    assert_eq!(plan.epoch(), plan_epoch());
    let operations = plan.operations();
    let first_publish = operations
        .iter()
        .position(|operation| matches!(operation, AdapterOperation::Publish(_)))
        .unwrap();
    assert!(
        operations[..first_publish]
            .iter()
            .all(|operation| matches!(operation, AdapterOperation::Subscribe(_)))
    );
    let publications: Vec<_> = operations
        .iter()
        .filter_map(AdapterOperation::publication)
        .collect();
    assert!(publications[0].topic().ends_with("/get"));
    assert!(publications[1].topic().ends_with("/set"));
    let subscriptions: Vec<_> = operations
        .iter()
        .filter_map(AdapterOperation::subscription)
        .collect();
    assert_eq!(
        subscriptions
            .iter()
            .find(|subscription| subscription.topic() == "zigbee2mqtt/living/remote")
            .unwrap()
            .qos(),
        Qos::AtMostOnce
    );
    assert!(
        subscriptions
            .iter()
            .filter(|subscription| { subscription.topic() != "zigbee2mqtt/living/remote" })
            .all(|subscription| subscription.qos() == Qos::AtLeastOnce)
    );
    assert!(
        publications
            .iter()
            .all(|publication| publication.qos() == Qos::AtLeastOnce)
    );
    assert_eq!(publications[1].dispatch_token(), Some(dispatch_token()));
}

#[test]
fn split_transition_delays_second_attribute_until_first_transition_finishes() {
    let token = dispatch_token();
    let plan = adapter(true)
        .apply_actions(
            plan_epoch(),
            &vec![ReconcileAction::Command {
                token,
                entity: CommandEntity::Device(device_id("ikea_lamp")),
                target: command_target(),
            }],
        )
        .unwrap();
    let publications: Vec<_> = plan
        .operations()
        .iter()
        .filter_map(AdapterOperation::publication)
        .collect();
    assert_eq!(publications[0].not_before_ms(), 0);
    assert_eq!(publications[1].not_before_ms(), 750);
    assert_eq!(publications[0].dispatch_operation_index(), Some(0));
    assert_eq!(publications[1].dispatch_operation_index(), Some(1));
    assert_eq!(plan.dispatch_plans().len(), 1);
    assert_eq!(plan.dispatch_plans()[0].token(), token);
    assert_eq!(plan.dispatch_plans()[0].operation_count(), 2);
    assert_eq!(plan.dispatch_plans()[0].max_offset_ms(), 750);
}

#[test]
fn transition_delay_accepts_the_documented_limit_and_rejects_overflow() {
    let token = dispatch_token();
    let mut boundary = command_target();
    boundary.transition_ms = Some(MAX_COMMAND_TRANSITION_MS);
    let plan = adapter(true)
        .apply_actions(
            plan_epoch(),
            &vec![ReconcileAction::Command {
                token,
                entity: CommandEntity::Device(device_id("ikea_lamp")),
                target: boundary,
            }],
        )
        .unwrap();
    assert_eq!(
        plan.dispatch_plans()[0].max_offset_ms(),
        MAX_COMMAND_TRANSITION_MS
    );

    for invalid in [MAX_COMMAND_TRANSITION_MS + 1, u64::MAX] {
        let mut target = command_target();
        target.transition_ms = Some(invalid);
        let error = adapter(true)
            .apply_actions(
                plan_epoch(),
                &vec![ReconcileAction::Command {
                    token,
                    entity: CommandEntity::Device(device_id("ikea_lamp")),
                    target,
                }],
            )
            .unwrap_err();
        assert!(error.is_permanent());
    }
}

#[test]
fn command_offsets_are_plan_relative_and_globally_phase_sorted_stably() {
    let adapter = Zigbee2MqttAdapter::new(
        "zigbee2mqtt".to_owned(),
        vec![
            DeviceBinding::new(
                device_id("a"),
                "a".to_owned(),
                capabilities(),
                Some(MiredRange::new(153, 500).unwrap()),
                true,
            )
            .unwrap(),
            DeviceBinding::new(
                device_id("b"),
                "b".to_owned(),
                capabilities(),
                Some(MiredRange::new(153, 500).unwrap()),
                true,
            )
            .unwrap(),
        ],
        Vec::new(),
        Vec::new(),
    )
    .unwrap();
    let epoch = PlanEpoch::new(MonotonicTime::from_seconds(d(7.0)).unwrap());
    let (first_token, second_token) = distinct_dispatch_tokens();
    let plan = adapter
        .apply_actions(
            epoch,
            &vec![
                ReconcileAction::Command {
                    token: first_token,
                    entity: CommandEntity::Device(device_id("a")),
                    target: command_target(),
                },
                ReconcileAction::Command {
                    token: second_token,
                    entity: CommandEntity::Device(device_id("b")),
                    target: command_target(),
                },
            ],
        )
        .unwrap();
    assert_eq!(plan.epoch(), epoch);
    assert_eq!(
        plan.epoch().monotonic_time(),
        MonotonicTime::from_seconds(d(7.0)).unwrap()
    );
    let publications = publications(&plan);
    assert_eq!(
        publications
            .iter()
            .map(|publication| (publication.topic(), publication.not_before_ms()))
            .collect::<Vec<_>>(),
        vec![
            ("zigbee2mqtt/a/set", 0),
            ("zigbee2mqtt/b/set", 0),
            ("zigbee2mqtt/a/set", 750),
            ("zigbee2mqtt/b/set", 750),
        ]
    );
    assert_eq!(
        publications
            .iter()
            .map(|publication| publication.dispatch_operation_index())
            .collect::<Vec<_>>(),
        vec![Some(0), Some(0), Some(1), Some(1)]
    );
    assert_eq!(plan.dispatch_plans().len(), 2);
    assert!(plan.dispatch_plans().iter().all(|dispatch| {
        dispatch.operation_count() == 2 && dispatch.max_offset_ms() == 750
    }));
}

#[test]
fn delayed_publications_expose_tokens_that_new_desired_state_invalidates() {
    let lamp = device_id("lamp");
    let mut reconciler = Reconciler::new(
        vec![DeviceDefinition::new(lamp.clone(), capabilities())],
        Vec::new(),
        RetryPolicy::new(d(2.0), 3).unwrap(),
    )
    .unwrap();
    connect(&mut reconciler);
    let adapter = Zigbee2MqttAdapter::new(
        "zigbee2mqtt".to_owned(),
        vec![
            DeviceBinding::new(
                lamp.clone(),
                "lamp".to_owned(),
                capabilities(),
                Some(MiredRange::new(153, 500).unwrap()),
                true,
            )
            .unwrap(),
        ],
        Vec::new(),
        Vec::new(),
    )
    .unwrap();

    let old_actions = reconciler
        .set_device_desired(
            &lamp,
            target_for_test(d(0.5)),
            MonotonicTime::from_seconds(d(1.0)).unwrap(),
        )
        .unwrap();
    let ReconcileAction::Command { token: old, .. } = old_actions[0] else {
        unreachable!()
    };
    let old_plan = adapter
        .apply_actions(
            PlanEpoch::new(MonotonicTime::from_seconds(d(1.0)).unwrap()),
            &old_actions,
        )
        .unwrap();
    assert!(
        publications(&old_plan)
            .iter()
            .all(|publication| publication.dispatch_token() == Some(old))
    );
    let old_dispatch = &old_plan.dispatch_plans()[0];
    reconciler
        .register_dispatch_plan(
            old_dispatch.token(),
            old_plan.epoch().monotonic_time(),
            old_dispatch.operation_count(),
            old_dispatch.max_offset_ms(),
        )
        .unwrap();
    let DispatchClaim::Ready(permit) = reconciler.claim_next_operation(old, 0).unwrap() else {
        panic!("expected first old-plan operation")
    };
    permit
        .accepted(MonotonicTime::from_seconds(d(1.0)).unwrap())
        .unwrap();

    let new_actions = reconciler
        .set_device_desired(
            &lamp,
            target_for_test(d(0.8)),
            MonotonicTime::from_seconds(d(1.1)).unwrap(),
        )
        .unwrap();
    let ReconcileAction::Command { token: new, .. } = new_actions[0] else {
        unreachable!()
    };
    let new_plan = adapter
        .apply_actions(
            PlanEpoch::new(MonotonicTime::from_seconds(d(1.1)).unwrap()),
            &new_actions,
        )
        .unwrap();
    assert!(!reconciler.is_dispatch_token_valid(old));
    assert!(reconciler.is_dispatch_token_valid(new));
    assert!(matches!(
        reconciler.claim_next_operation(old, 1).unwrap(),
        DispatchClaim::Stale
    ));
    assert!(
        publications(&new_plan)
            .iter()
            .all(|publication| publication.dispatch_token() == Some(new))
    );
}

#[test]
fn mired_range_is_required_exactly_for_cct_capability_and_commands() {
    let no_cct = Capabilities {
        color_temperature: None,
        ..capabilities()
    };
    assert!(
        DeviceBinding::new(
            device_id("rgb"),
            "rgb".to_owned(),
            no_cct,
            Some(MiredRange::new(153, 500).unwrap()),
            false,
        )
        .is_err()
    );
    assert!(DeviceBinding::new(device_id("cct"), "cct".to_owned(), capabilities(), None, false,).is_err());

    let adapter = Zigbee2MqttAdapter::new(
        "zigbee2mqtt".to_owned(),
        vec![DeviceBinding::new(device_id("rgb"), "rgb".to_owned(), no_cct, None, false).unwrap()],
        Vec::new(),
        Vec::new(),
    )
    .unwrap();
    let error = adapter
        .apply_actions(
            plan_epoch(),
            &vec![ReconcileAction::Command {
                token: dispatch_token(),
                entity: CommandEntity::Device(device_id("rgb")),
                target: DeviceTarget {
                    on: None,
                    brightness: None,
                    color_temperature: Some(Kelvin::new(d(2700.0)).unwrap()),
                    color: None,
                    transition_ms: None,
                },
            }],
        )
        .unwrap_err();
    assert!(error.is_permanent());
}

#[test]
fn adapter_failure_can_be_reported_without_spending_dispatch_attempt() {
    let lamp = device_id("unbound_lamp");
    let mut reconciler = Reconciler::new(
        vec![DeviceDefinition::new(lamp.clone(), capabilities())],
        Vec::new(),
        RetryPolicy::new(d(2.0), 3).unwrap(),
    )
    .unwrap();
    connect(&mut reconciler);
    let actions = reconciler
        .set_device_desired(
            &lamp,
            LightTarget {
                on: true,
                brightness: None,
                color_temperature: None,
                color: None,
                transition_ms: None,
            },
            MonotonicTime::from_seconds(d(1.0)).unwrap(),
        )
        .unwrap();
    let ReconcileAction::Command { token, .. } = actions[0] else {
        unreachable!()
    };
    let adapter =
        Zigbee2MqttAdapter::new("zigbee2mqtt".to_owned(), Vec::new(), Vec::new(), Vec::new()).unwrap();

    let error = adapter.apply_actions(plan_epoch(), &actions).unwrap_err();
    assert!(error.is_permanent());
    reconciler
        .cancel_dispatch(token, MonotonicTime::from_seconds(d(1.1)).unwrap())
        .unwrap();
    assert!(
        reconciler
            .retry_due(MonotonicTime::from_seconds(d(100.0)).unwrap())
            .unwrap()
            .is_empty()
    );
    assert!(
        reconciler
            .device_state(&lamp)
            .unwrap()
            .pending_command()
            .is_none()
    );
}

#[test]
fn sparse_reads_follow_device_capabilities() {
    let on_only = Capabilities {
        on_off: true,
        dimming: false,
        color_temperature: None,
        color_xy: false,
        color_hs: false,
        input: false,
        occupancy: false,
        temperature: false,
        power_metering: false,
    };
    let rgb = Capabilities {
        color_xy: true,
        ..on_only
    };
    let adapter = Zigbee2MqttAdapter::new(
        "zigbee2mqtt".to_owned(),
        vec![
            DeviceBinding::new(device_id("switch"), "switch".to_owned(), on_only, None, false).unwrap(),
            DeviceBinding::new(device_id("rgb"), "rgb".to_owned(), rgb, None, false).unwrap(),
        ],
        Vec::new(),
        Vec::new(),
    )
    .unwrap();
    let plan = adapter
        .apply_actions(
            plan_epoch(),
            &vec![
                ReconcileAction::RequestState(device_id("switch")),
                ReconcileAction::RequestState(device_id("rgb")),
            ],
        )
        .unwrap();
    let publications: Vec<_> = plan
        .operations()
        .iter()
        .filter_map(AdapterOperation::publication)
        .collect();
    assert_eq!(object(publications[0]), json(r#"{"state":""}"#));
    assert_eq!(
        object(publications[1]),
        json(r#"{"state":"", "color":{"x":"", "y":""}}"#)
    );
    assert!(object(publications[1]).get("color_temp").is_none());
}

#[test]
fn topic_names_reject_bridge_controls_and_excessive_length() {
    let capabilities = Capabilities {
        on_off: true,
        dimming: false,
        color_temperature: Some(KelvinRange::new(d(2200.0), d(6500.0)).unwrap()),
        color_xy: false,
        color_hs: false,
        input: false,
        occupancy: false,
        temperature: false,
        power_metering: false,
    };
    for name in ["bridge", "bridge/devices", "room\nlight"] {
        assert!(
            DeviceBinding::new(
                device_id("lamp"),
                name.to_owned(),
                capabilities,
                Some(MiredRange::new(153, 500).unwrap()),
                false,
            )
            .is_err()
        );
    }
    assert!(
        Zigbee2MqttAdapter::new("x".to_owned().repeat(257), Vec::new(), Vec::new(), Vec::new()).is_err()
    );
    assert!(Zigbee2MqttAdapter::new("bad\nbase".to_owned(), Vec::new(), Vec::new(), Vec::new()).is_err());
    assert!(
        DeviceBinding::new(
            device_id("lamp"),
            "x".to_owned().repeat(257),
            capabilities,
            Some(MiredRange::new(153, 500).unwrap()),
            false,
        )
        .is_err()
    );
}

#[test]
fn payloads_are_sent_as_compact_json() {
    let sent = |payload: Vec<(PayloadField, PayloadValue)>| {
        let publication = Publication {
            topic: "zigbee2mqtt/lamp/set".to_owned(),
            payload,
            retain: false,
            qos: Qos::AtLeastOnce,
            not_before_ms: 0,
            dispatch_token: None,
            dispatch_operation_index: None,
        };
        String::from_utf8(publication.payload().unwrap()).unwrap()
    };
    assert_eq!(sent(Vec::new()), "{}");
    assert_eq!(
        sent(vec![
            (PayloadField::ColorX, PayloadValue::Number(d(0.3127))),
            (PayloadField::State, PayloadValue::Off),
            (PayloadField::ColorY, PayloadValue::Number(d(1.0))),
            (PayloadField::Brightness, PayloadValue::Whole(254)),
            (PayloadField::ColorTemp, PayloadValue::Blank),
            (PayloadField::Transition, PayloadValue::Number(d(0.1 + 0.2))),
        ]),
        "{\"brightness\":254,\"color\":{\"x\":0.3127,\"y\":1.0},\"color_temp\":\"\",\
         \"state\":\"OFF\",\"transition\":0.30000000000000004}"
    );
    assert_eq!(
        sent(vec![
            (PayloadField::Transition, PayloadValue::Number(d(f64::NAN))),
            (PayloadField::ColorHue, PayloadValue::Number(d(-0.0))),
            (PayloadField::ColorSaturation, PayloadValue::Number(d(f64::INFINITY))),
        ]),
        "{\"color\":{\"hue\":-0.0,\"saturation\":null},\"transition\":null}"
    );
}

#[test]
fn malformed_messages_are_faults_that_pass_and_settings_faults_stay() {
    let adapter = adapter(false);
    for payload in [&b"not json"[..], br#"{"brightness":300}"#, br#"{"color_temp":-1}"#] {
        let error = parse(&adapter, "zigbee2mqtt/living/ikea lamp", payload).unwrap_err();
        assert!(!error.is_permanent());
    }
    let error = Zigbee2MqttAdapter::new("a/+".to_owned(), Vec::new(), Vec::new(), Vec::new())
        .unwrap_err();
    assert!(error.is_permanent());
}
