use house_automation::config::{
    line_column, parse_gesture, parse_month_day, parse_time_of_day, seconds_from_ms,
    topic_namespaces_overlap, valid_environment_name, validate_topic_namespace, BindAddress,
    ConfigError, RawAcknowledgement, RawCircadian, RawCredentials, RawHealth, RawInput,
    RawLocation, RawMqtt, RawReconciliation, RawWholeHour, MAX_CONFIG_BYTES,
};
use house_automation::curve::TimeOfDay;
use house_automation::double::Double;
use house_automation::input::{Direction, Gesture};
use house_automation::setup::{RawConfig, ValidatedConfig};
use house_automation::topology::{
    RawAction, RawAnchor, RawCapabilities, RawColorComparison, RawColorTemperature, RawControl,
    RawCurve, RawCurveKind, RawDevice, RawFloor, RawGamut, RawGroup, RawMapping, RawRoom, RawScope,
    RawWinterHold,
};
use house_automation::value::KelvinRange;
use house_automation::zigbee2mqtt::MiredRange;

fn d(value: f64) -> Double {
    Double::from_bits(value.to_bits())
}

fn f(value: Double) -> f64 {
    f64::from_bits(value.to_bits())
}

fn lamp_capabilities() -> RawCapabilities {
    RawCapabilities {
        on_off: true,
        dimming: true,
        color_temperature: Some(RawColorTemperature {
            minimum_kelvin: d(2200.0),
            maximum_kelvin: d(4000.0),
            minimum_mired: Some(250),
            maximum_mired: Some(454),
        }),
        ..RawCapabilities::default()
    }
}

fn lamp(id: &str, room: &str) -> RawDevice {
    RawDevice {
        id: id.to_owned(),
        aliases: Vec::new(),
        friendly_name: format!("{room}/{id}"),
        room: room.to_owned(),
        capabilities: lamp_capabilities(),
        color_comparison: None,
        single_transition_attribute: false,
    }
}

fn anchor(time: &str, brightness: f64, kelvin: f64) -> RawAnchor {
    RawAnchor {
        time: time.to_owned(),
        brightness: d(brightness),
        color_temperature_kelvin: d(kelvin),
    }
}

fn fixed_curve() -> RawCurve {
    RawCurve {
        id: "daily".to_owned(),
        kind: RawCurveKind::Fixed,
        anchors: Some(vec![
            anchor("06:00", 0.2, 2200.0),
            anchor("12:00", 1.0, 4000.0),
            anchor("22:00:30", 0.3, 2500.0),
        ]),
        wake_time: None,
        bed_time: None,
        night_brightness: None,
        day_brightness: None,
        night_color_temperature_kelvin: None,
        day_color_temperature_kelvin: None,
        winter_hold: None,
    }
}

fn solar_curve() -> RawCurve {
    RawCurve {
        id: "sun".to_owned(),
        kind: RawCurveKind::SolarHybrid,
        anchors: None,
        wake_time: Some("07:00".to_owned()),
        bed_time: Some("23:00".to_owned()),
        night_brightness: Some(d(0.1)),
        day_brightness: Some(d(1.0)),
        night_color_temperature_kelvin: Some(d(2200.0)),
        day_color_temperature_kelvin: Some(d(4000.0)),
        winter_hold: Some(RawWinterHold {
            start: "11-01".to_owned(),
            end: "02-01".to_owned(),
            reference: "11-01".to_owned(),
        }),
    }
}

fn mapping(gesture: &str, target: &str, action: RawAction) -> RawMapping {
    RawMapping {
        gesture: gesture.to_owned(),
        target: target.to_owned(),
        action,
    }
}

/// Two rooms on one floor, three lamps of which two form a group, one remote.
fn house() -> RawConfig {
    RawConfig {
        schema_version: 1,
        location: Some(RawLocation {
            latitude: d(59.3),
            longitude: d(18.1),
            time_zone: "Europe/Stockholm".to_owned(),
        }),
        mqtt: RawMqtt {
            host: "broker.local".to_owned(),
            port: 1883,
            client_id: "house".to_owned(),
            application_namespace: "house/v1".to_owned(),
            zigbee2mqtt_base_topic: "zigbee2mqtt".to_owned(),
            credentials: Some(RawCredentials {
                environment_file: "/run/credentials/mqtt.env".to_owned(),
                resolved: None,
                username_variable: "MQTT_USERNAME".to_owned(),
                password_variable: "MQTT_PASSWORD".to_owned(),
            }),
        },
        input: RawInput::default(),
        circadian: RawCircadian::default(),
        acknowledgement: RawAcknowledgement::default(),
        whole_hour: RawWholeHour::default(),
        reconciliation: RawReconciliation::default(),
        health: RawHealth::default(),
        floors: vec![RawFloor {
            id: "ground".to_owned(),
        }],
        rooms: vec![
            RawRoom {
                id: "living".to_owned(),
                floor: "ground".to_owned(),
            },
            RawRoom {
                id: "kitchen".to_owned(),
                floor: "ground".to_owned(),
            },
        ],
        curves: vec![fixed_curve(), solar_curve()],
        scopes: vec![
            RawScope::Room {
                id: "living_scope".to_owned(),
                room: "living".to_owned(),
                curve: "daily".to_owned(),
            },
            RawScope::Floor {
                id: "ground_scope".to_owned(),
                floor: "ground".to_owned(),
                curve: "daily".to_owned(),
            },
            RawScope::House {
                id: "house_scope".to_owned(),
                curve: "daily".to_owned(),
            },
        ],
        devices: vec![
            lamp("sofa", "living"),
            lamp("shelf", "living"),
            lamp("counter", "kitchen"),
        ],
        groups: vec![RawGroup {
            id: "living_lamps".to_owned(),
            friendly_name: "living/all".to_owned(),
            members: vec!["sofa".to_owned(), "shelf".to_owned()],
            capabilities: lamp_capabilities(),
            single_transition_attribute: false,
        }],
        controls: vec![RawControl {
            id: "remote".to_owned(),
            aliases: vec!["old_remote".to_owned()],
            friendly_name: "living/remote".to_owned(),
            selected_scope: "living_scope".to_owned(),
            mappings: vec![
                mapping("center_single", "selected", RawAction::TogglePower),
                mapping(
                    "up",
                    "selected",
                    RawAction::AdjustBrightnessOffset { delta: d(0.1) },
                ),
                mapping("hold_right", "house_scope", RawAction::SelectScope),
            ],
        }],
    }
}

/// Changes the house and tells what is wrong with it then.
fn problem(change: impl FnOnce(&mut RawConfig)) -> (&'static str, &'static str) {
    let mut raw = house();
    change(&mut raw);
    match raw.validate() {
        Err(ConfigError::Validation { field, reason }) => (field, reason),
        Err(other) => panic!("unexpected failure: {}", other.message()),
        Ok(_) => panic!("unexpectedly accepted"),
    }
}

#[test]
fn the_house_is_accepted() {
    let parts = house().validate().unwrap();
    assert_eq!(parts.time_zone.name, "Europe/Stockholm");
    assert_eq!(parts.curves.len(), 2);
    assert_eq!(parts.scopes.len(), 3);
    assert_eq!(parts.devices.len(), 3);
    assert_eq!(parts.groups.len(), 1);
    assert_eq!(parts.controls.len(), 1);
    assert_eq!(parts.acknowledgement_duration_ms, 180);
    assert_eq!(f(parts.input.double_click_window.value), 0.35);
}

#[test]
fn a_house_without_location_keeps_stockholm_time() {
    let mut raw = house();
    raw.location = None;
    raw.curves = vec![fixed_curve()];
    assert_eq!(
        raw.validate().unwrap().time_zone.name,
        "Europe/Stockholm"
    );
}

#[test]
fn validated_configuration_tells_what_it_holds() {
    let config = ValidatedConfig::parse("", Ok(house())).unwrap();
    assert_eq!(config.application_namespace(), "house/v1");
    assert_eq!(config.device_count(), 3);
    assert_eq!(config.control_count(), 1);
    assert_eq!(
        config.daily_reset_time(),
        TimeOfDay::from_hms(4, 0, 0).unwrap()
    );
    let parts = config.into_runtime_parts();
    assert_eq!(parts.mqtt.port, 1883);
}

#[test]
fn texts_are_bounded_and_faults_are_placed() {
    let long = "x".repeat(MAX_CONFIG_BYTES + 1);
    assert!(matches!(
        ValidatedConfig::parse(&long, Ok(house())),
        Err(ConfigError::TooLarge {
            maximum_bytes: MAX_CONFIG_BYTES
        })
    ));
    let text = "schema_version = 1\nh\u{e9} = [\n";
    let error = ValidatedConfig::parse(text, Err(Some(24))).err().unwrap();
    assert!(matches!(error, ConfigError::Parse { line: 2, column: 6 }));
    assert!(matches!(
        ValidatedConfig::parse(text, Err(None)),
        Err(ConfigError::Parse { line: 0, column: 0 })
    ));
    assert_eq!(line_column("ab\ncd", 4), (2, 2));
}

#[test]
fn scalar_faults_are_named() {
    assert_eq!(
        problem(|raw| raw.schema_version = 2),
        ("schema_version", "only schema version 1 is supported")
    );
    assert_eq!(
        problem(|raw| raw.location.as_mut().unwrap().latitude = d(90.5)).0,
        "location.latitude"
    );
    assert_eq!(
        problem(|raw| raw.location.as_mut().unwrap().longitude = d(f64::NAN)).0,
        "location.longitude"
    );
    assert_eq!(
        problem(|raw| raw.location.as_mut().unwrap().time_zone = "Europe/Atlantis".to_owned()),
        ("location.time_zone", "must be a known IANA timezone")
    );
    assert_eq!(problem(|raw| raw.mqtt.port = 0).0, "mqtt endpoint");
    assert_eq!(
        problem(|raw| raw.mqtt.application_namespace = "house".to_owned()).0,
        "mqtt.application_namespace"
    );
    assert_eq!(
        problem(|raw| raw.mqtt.zigbee2mqtt_base_topic = "zigbee/#".to_owned()).0,
        "mqtt.zigbee2mqtt_base_topic"
    );
    assert_eq!(
        problem(|raw| raw.mqtt.zigbee2mqtt_base_topic = "house".to_owned()).0,
        "mqtt namespaces"
    );
    assert_eq!(
        problem(|raw| raw.mqtt.client_id = "x".repeat(65)).0,
        "mqtt.client_id"
    );
    assert_eq!(
        problem(|raw| raw.mqtt.credentials.as_mut().unwrap().environment_file =
            "/run/../mqtt.env".to_owned())
        .0,
        "mqtt.credentials.environment_file"
    );
    assert_eq!(
        problem(|raw| raw.mqtt.credentials.as_mut().unwrap().resolved =
            Some("/nix/store/x/mqtt.env".to_owned()))
        .0,
        "mqtt.credentials.environment_file"
    );
    assert_eq!(
        problem(|raw| raw.mqtt.credentials.as_mut().unwrap().password_variable =
            "MQTT_USERNAME".to_owned())
        .0,
        "mqtt credential variables"
    );
    assert_eq!(
        problem(|raw| raw.input.double_click_window_ms = 2_001),
        ("input.double_click_window_ms", "exceeds the 2000 ms ceiling")
    );
    assert_eq!(
        problem(|raw| raw.input.double_click_window_ms = 0),
        ("input.double_click_window_ms", "must be positive")
    );
    assert_eq!(
        problem(|raw| raw.input.ambiguous_center_hold_window_ms = 10_001).0,
        "input.ambiguous_center_hold_window_ms"
    );
    assert_eq!(
        problem(|raw| raw.input.ambiguous_center_hold_window_ms = 1).0,
        "input windows"
    );
    assert_eq!(
        problem(|raw| raw.circadian.daily_reset_time = "4:00".to_owned()).0,
        "circadian.daily_reset_time"
    );
    assert_eq!(
        problem(|raw| raw.circadian.unfreeze_convergence_seconds = d(0.0005)).0,
        "circadian.unfreeze_convergence_seconds"
    );
    assert_eq!(
        problem(|raw| raw.circadian.maximum_refresh_seconds = d(1.0)).0,
        "circadian sparse update settings"
    );
    assert_eq!(
        problem(|raw| raw.acknowledgement.amplitude = d(0.5)).0,
        "acknowledgement"
    );
    assert_eq!(
        problem(|raw| raw.acknowledgement.duration_ms = 5_001).0,
        "acknowledgement.duration_ms"
    );
    assert_eq!(
        problem(|raw| raw.acknowledgement.overlay_id = "Bad Id".to_owned()).0,
        "acknowledgement.overlay_id"
    );
    assert_eq!(
        problem(|raw| raw.whole_hour.brightness_delta = d(0.0)),
        (
            "whole_hour.brightness_delta",
            "must be non-zero and between -1 and 1"
        )
    );
    assert_eq!(
        problem(|raw| raw.whole_hour.brightness_delta = d(f64::INFINITY)),
        ("whole_hour.brightness_delta", "must be finite")
    );
    assert_eq!(
        problem(|raw| raw.whole_hour.duration_ms = 60_001).0,
        "whole_hour.duration_ms"
    );
    assert_eq!(
        problem(|raw| raw.reconciliation.maximum_attempts = 11),
        (
            "reconciliation",
            "intervals must be finite and positive; attempts must be 1..=10"
        )
    );
    assert_eq!(
        problem(|raw| raw.reconciliation.retry_interval_seconds = d(3601.0)).0,
        "reconciliation"
    );
}

#[test]
fn health_addresses_are_numeric_local_and_whole() {
    let bind = |address: Option<BindAddress>, allowed: bool| {
        problem(|raw| {
            raw.health.address = address;
            raw.health.allow_non_loopback = allowed;
        })
        .1
    };
    assert_eq!(bind(None, true), "must be a numeric IP socket address");
    let address = BindAddress {
        port: 9876,
        unspecified: false,
        loopback: false,
    };
    assert_eq!(
        bind(Some(BindAddress { port: 0, ..address }), true),
        "port must be non-zero"
    );
    assert_eq!(
        bind(
            Some(BindAddress {
                unspecified: true,
                ..address
            }),
            true
        ),
        "wildcard addresses are not permitted"
    );
    assert_eq!(
        bind(Some(address), false),
        "non-loopback address requires allow_non_loopback = true"
    );
}

#[test]
fn topology_faults_are_named() {
    assert_eq!(
        problem(|raw| raw.floors.clear()),
        ("floors", "must not be empty")
    );
    assert_eq!(
        problem(|raw| raw.floors.push(RawFloor {
            id: "ground".to_owned()
        })),
        ("floors", "duplicate identifier")
    );
    assert_eq!(
        problem(|raw| raw.floors[0].id = "Ground".to_owned()),
        ("floors", "invalid lowercase identifier")
    );
    assert_eq!(
        problem(|raw| raw.rooms[1].floor = "attic".to_owned()),
        ("rooms.floor", "references unknown floor")
    );
    assert_eq!(
        problem(|raw| raw.rooms[1].id = "living".to_owned()),
        ("rooms", "duplicate identifier")
    );
    assert_eq!(
        problem(|raw| raw.devices[2].room = "attic".to_owned()),
        ("devices.room", "references unknown room")
    );
    assert_eq!(
        problem(|raw| raw.devices[1].id = "sofa".to_owned()),
        ("devices.id", "duplicate identifier or alias")
    );
    assert_eq!(
        problem(|raw| raw.devices[1].aliases.push("sofa".to_owned())),
        ("devices.aliases", "duplicate identifier or alias")
    );
    assert_eq!(
        problem(|raw| raw.devices[1].friendly_name = "living/set".to_owned()).0,
        "devices.friendly_name"
    );
    assert_eq!(
        problem(|raw| raw.devices[1].capabilities = RawCapabilities::default()),
        ("devices.capabilities", "at least one capability is required")
    );
    assert_eq!(
        problem(|raw| raw.devices[1].capabilities.on_off = false),
        ("devices.capabilities", "lighting capabilities require on_off")
    );
    assert_eq!(
        problem(|raw| {
            let range = raw.devices[1].capabilities.color_temperature.as_mut();
            range.unwrap().minimum_mired = None;
        }),
        (
            "devices.capabilities",
            "minimum_mired and maximum_mired must both be present or both be omitted"
        )
    );
    assert_eq!(
        problem(|raw| {
            let range = raw.devices[1].capabilities.color_temperature.as_mut();
            range.unwrap().minimum_mired = Some(300);
        }),
        (
            "devices.capabilities",
            "Kelvin and mired endpoints must round-trip within 1%"
        )
    );
    assert_eq!(
        problem(|raw| {
            raw.devices[2].single_transition_attribute = true;
            raw.devices[2].capabilities.dimming = false;
        })
        .0,
        "devices.single_transition_attribute"
    );
    assert_eq!(
        problem(|raw| raw.devices[2].color_comparison = Some(RawColorComparison::default())),
        ("devices.color_comparison", "requires a color capability")
    );
    assert_eq!(
        problem(|raw| {
            raw.devices[2].capabilities.color_xy = true;
            raw.devices[2].color_comparison = Some(RawColorComparison {
                gamut: Some(RawGamut {
                    red: (d(0.1), d(0.1)),
                    green: (d(0.2), d(0.2)),
                    blue: (d(0.3), d(0.3)),
                }),
                ..RawColorComparison::default()
            });
        })
        .0,
        "devices.color_comparison.gamut"
    );
}

#[test]
fn group_faults_are_named() {
    assert_eq!(
        problem(|raw| raw.groups[0].members.clear()),
        ("groups.members", "must not be empty")
    );
    assert_eq!(
        problem(|raw| raw.groups[0].members[0] = "lamp".to_owned()),
        ("groups.members", "references unknown device")
    );
    assert_eq!(
        problem(|raw| raw.groups[0].members[1] = "sofa".to_owned()),
        (
            "groups.members",
            "device must occur once and belong to at most one Zigbee group"
        )
    );
    assert_eq!(
        problem(|raw| raw.groups[0].capabilities.color_xy = true),
        (
            "groups.capabilities",
            "group capabilities must be supported by every member"
        )
    );
    assert_eq!(
        problem(|raw| raw.groups[0].friendly_name = "bridge".to_owned()).0,
        "groups.friendly_name"
    );
    assert_eq!(
        problem(|raw| raw.groups[0].friendly_name = "living/sofa".to_owned()).0,
        "zigbee2mqtt bindings"
    );
}

#[test]
fn scope_faults_are_named() {
    assert_eq!(
        problem(|raw| raw.scopes.clear()),
        ("scopes", "must not be empty")
    );
    assert_eq!(
        problem(|raw| raw.scopes[2] = RawScope::House {
            id: "selected".to_owned(),
            curve: "daily".to_owned(),
        })
        .0,
        "scopes.id"
    );
    assert_eq!(
        problem(|raw| raw.scopes[2] = RawScope::House {
            id: "house_scope".to_owned(),
            curve: "moon".to_owned(),
        }),
        ("scopes.curve", "references unknown curve")
    );
    assert_eq!(
        problem(|raw| raw.scopes[1] = RawScope::House {
            id: "other".to_owned(),
            curve: "daily".to_owned(),
        }),
        ("scopes", "duplicate identifier or duplicate resolved scope")
    );
    assert_eq!(
        problem(|raw| {
            raw.rooms.push(RawRoom {
                id: "cellar".to_owned(),
                floor: "ground".to_owned(),
            });
            raw.scopes.push(RawScope::Room {
                id: "cellar_scope".to_owned(),
                room: "cellar".to_owned(),
                curve: "daily".to_owned(),
            });
        }),
        (
            "scopes",
            "resolved scope must contain at least one device that is a controllable light"
        )
    );
}

#[test]
fn curve_faults_are_named() {
    assert_eq!(
        problem(|raw| raw.curves.clear()),
        ("curves", "must not be empty")
    );
    assert_eq!(
        problem(|raw| raw.curves[0].anchors = None),
        ("curves.anchors", "fixed curve requires anchors")
    );
    assert_eq!(
        problem(|raw| raw.curves[0].bed_time = Some("23:00".to_owned())),
        ("curves", "fixed curve accepts only anchors")
    );
    assert_eq!(
        problem(|raw| raw.curves[0].anchors = Some(vec![anchor("06:00", 0.2, 2200.0)])),
        (
            "curves.anchors",
            "curve needs at least two anchors with unique times and valid values"
        )
    );
    assert_eq!(
        problem(|raw| raw.curves[0].anchors.as_mut().unwrap()[0].brightness = d(1.5)),
        ("curves.anchors.brightness", "must be between 0 and 1")
    );
    assert_eq!(
        problem(|raw| raw.location = None),
        (
            "location",
            "solar_hybrid curve requires coordinates and timezone"
        )
    );
    assert_eq!(
        problem(|raw| raw.curves[1].wake_time = None),
        ("curves.wake_time", "is required")
    );
    assert_eq!(
        problem(|raw| raw.curves[1].bed_time = Some("14:59".to_owned())).0,
        "curves"
    );
    assert_eq!(
        problem(|raw| raw.curves[1].winter_hold.as_mut().unwrap().reference = "06-01".to_owned()),
        (
            "curves.winter_hold.reference",
            "must fall inside hold interval"
        )
    );
    assert_eq!(
        problem(|raw| raw.curves[1].winter_hold.as_mut().unwrap().end = "02-30".to_owned()),
        ("curves.winter_hold", "must use valid MM-DD values")
    );
    assert_eq!(
        problem(|raw| raw.curves[1].id = "daily".to_owned()),
        ("curves", "duplicate identifier")
    );
}

#[test]
fn control_faults_are_named() {
    assert_eq!(
        problem(|raw| raw.controls.clear()),
        ("controls", "must not be empty")
    );
    assert_eq!(
        problem(|raw| raw.controls[0].id = "sofa".to_owned()),
        ("controls.id", "duplicate identifier or alias")
    );
    assert_eq!(
        problem(|raw| raw.controls[0].selected_scope = "attic".to_owned()),
        ("controls.selected_scope", "references unknown scope")
    );
    assert_eq!(
        problem(|raw| raw.controls[0].mappings.clear()),
        ("controls.mappings", "must not be empty")
    );
    assert_eq!(
        problem(|raw| raw.controls[0].mappings[0].gesture = "wave".to_owned()),
        ("controls.mappings.gesture", "unsupported gesture")
    );
    assert_eq!(
        problem(|raw| raw.controls[0].mappings[1].gesture = "center_single".to_owned()),
        (
            "controls.mappings",
            "a gesture may have only one mapping per control"
        )
    );
    assert_eq!(
        problem(|raw| raw.controls[0].mappings[2].target = "selected".to_owned()),
        (
            "controls.mappings",
            "action and target combination is invalid"
        )
    );
    assert_eq!(
        problem(|raw| raw.controls[0].mappings[1].action =
            RawAction::AdjustBrightnessOffset { delta: d(1.5) })
        .0,
        "controls.mappings.action.delta"
    );
    assert_eq!(
        problem(
            |raw| raw.controls[0].mappings[1].action = RawAction::AdjustColorTemperatureOffset {
                delta_kelvin: d(0.0)
            }
        )
        .0,
        "controls.mappings.action.delta_kelvin"
    );
    assert_eq!(
        problem(|raw| {
            raw.groups.clear();
            raw.devices[0].capabilities.dimming = false;
            raw.devices[1].capabilities.dimming = false;
        })
        .0,
        "controls.mappings.action"
    );
    assert_eq!(
        problem(|raw| raw.controls[0].friendly_name = "living/+".to_owned()).0,
        "controls.friendly_name"
    );
}

#[test]
fn times_days_and_gestures_are_read_strictly() {
    assert_eq!(
        parse_time_of_day("23:59:58"),
        Some(TimeOfDay::from_hms(23, 59, 58).unwrap())
    );
    assert_eq!(
        parse_time_of_day("07:05"),
        Some(TimeOfDay::from_hms(7, 5, 0).unwrap())
    );
    assert_eq!(
        parse_time_of_day("+7:05"),
        Some(TimeOfDay::from_hms(7, 5, 0).unwrap())
    );
    for wrong in ["24:00", "7:05", "07:60", "07", "07:05:01:02", "0a:00", ""] {
        assert_eq!(parse_time_of_day(wrong), None);
    }
    assert_eq!(
        parse_month_day("02-29").map(|day| (day.month, day.day)).ok(),
        Some((2, 29))
    );
    for wrong in ["2-29", "02/29", "13-01", "04-31"] {
        assert!(parse_month_day(wrong).is_err());
    }
    assert_eq!(
        parse_gesture("release_left"),
        Some(Gesture::DirectionRelease(Direction::Left))
    );
    assert_eq!(parse_gesture("center_double"), Some(Gesture::CenterDouble));
    assert_eq!(parse_gesture("Up"), None);
}

#[test]
fn topic_namespaces_are_checked_component_by_component() {
    assert!(validate_topic_namespace("house/v1", true).is_ok());
    assert!(validate_topic_namespace("zigbee2mqtt", false).is_ok());
    for wrong in ["", "/house/v1", "house//v1", "house/+/v1", "house/set/v1", "$sys/v1"] {
        assert!(validate_topic_namespace(wrong, true).is_err());
    }
    assert!(topic_namespaces_overlap("house/v1", "house"));
    assert!(topic_namespaces_overlap("house", "house/v1"));
    assert!(!topic_namespaces_overlap("house/v1", "houses"));
    assert!(valid_environment_name("_MQTT_1"));
    assert!(!valid_environment_name("1MQTT"));
    assert_eq!(seconds_from_ms(750).map(f), Some(0.75));
    assert_eq!(seconds_from_ms(0), None);
}

#[test]
fn colour_temperature_ranges_round_trip_within_a_percent() {
    let kelvin = KelvinRange::new(d(2200.0), d(4000.0)).unwrap();
    assert!(house_automation::topology::validate_cct_round_trip(
        kelvin,
        MiredRange::new(250, 454).unwrap()
    ));
    assert!(!house_automation::topology::validate_cct_round_trip(
        kelvin,
        MiredRange::new(250, 470).unwrap()
    ));
}

#[test]
fn configuration_messages_name_the_field() {
    assert_eq!(
        house_with_port_zero().message(),
        "invalid mqtt endpoint: host must be non-empty and port must be non-zero"
    );
}

fn house_with_port_zero() -> ConfigError {
    let mut raw = house();
    raw.mqtt.port = 0;
    raw.validate().err().unwrap()
}

#[test]
fn timers_at_their_limits_are_accepted() {
    let mut raw = house();
    raw.input.double_click_window_ms = 2_000;
    raw.input.ambiguous_center_hold_window_ms = 10_000;
    raw.acknowledgement.duration_ms = 5_000;
    raw.whole_hour.duration_ms = 60_000;
    raw.reconciliation.retry_interval_seconds = d(3_600.0);
    raw.reconciliation.maximum_attempts = 10;
    assert!(raw.validate().is_ok());
}

#[test]
fn topics_have_defaults() {
    assert_eq!(RawMqtt::default_application_namespace(), "house/v1");
    assert_eq!(RawMqtt::default_zigbee2mqtt_topic(), "zigbee2mqtt");
    assert!(validate_topic_namespace(&RawMqtt::default_application_namespace(), true).is_ok());
    assert!(validate_topic_namespace(&RawMqtt::default_zigbee2mqtt_topic(), false).is_ok());
}

#[test]
fn a_configuration_in_a_log_shows_no_names() {
    let config = ValidatedConfig {
        parts: house().validate().unwrap(),
    };
    let text = config.redacted();
    assert_eq!(
        text,
        format!(
            "ValidatedConfig {{ schema_version: 1, mqtt: \"<redacted>\", topology: \"<redacted>\", credential_source: \"<redacted>\", health_is_loopback: {} }}",
            config.parts.health.address.loopback
        )
    );
}
