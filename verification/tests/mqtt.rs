use house_automation::config::{MqttCredentialSource, MqttSettings};
use house_automation::delivery::{
    DeliveryOutcome, DeliveryTicket, DeliveryTracker, ReconnectState, MAX_RECONNECT_BACKOFF_MS,
};
use house_automation::mqtt::{
    accept_resolved, build_mqtt_options, parse_environment_file, path_is_outside_nix_store, read_credentials,
    required_credential, status_topic, FileFacts, MqttCredentials, MqttError, MqttErrorKind,
    OwnedInboundMessage, TransportEvent,
    MAX_CREDENTIAL_FILE_BYTES, MAX_CREDENTIAL_VALUE_BYTES,
};
use house_automation::zigbee2mqtt::Qos;

fn source() -> MqttCredentialSource {
    MqttCredentialSource {
        environment_file: "/run/credentials/mqtt.env".to_owned(),
        username_variable: "MQTT_USERNAME".to_owned(),
        password_variable: "MQTT_PASSWORD".to_owned(),
    }
}

fn private_file() -> FileFacts {
    FileFacts {
        symlink: false,
        regular: true,
        permissions: 0o600,
        length: 40,
    }
}

fn settings() -> MqttSettings {
    MqttSettings {
        host: "broker.local".to_owned(),
        port: 1883,
        client_id: "house".to_owned(),
        application_namespace: "house/v1".to_owned(),
        zigbee2mqtt_base_topic: "zigbee2mqtt".to_owned(),
        credentials: None,
    }
}

#[test]
fn transport_uses_a_clean_session_so_invalidated_commands_cannot_replay() {
    let options = build_mqtt_options(&settings(), None);

    assert!(options.clean_session());
}

#[test]
fn connections_announce_their_end_and_carry_credentials() {
    let options = build_mqtt_options(
        &settings(),
        Some(MqttCredentials {
            username: "alice".to_owned(),
            password: "sesame".to_owned(),
        }),
    );
    assert_eq!(options.client_id, "house");
    assert_eq!((options.host.as_str(), options.port), ("broker.local", 1883));
    assert_eq!(options.keep_alive_seconds, 30);
    assert_eq!(options.last_will.topic, "house/v1/status");
    assert_eq!(options.last_will.message, "offline");
    assert_eq!(options.last_will.qos, Qos::AtLeastOnce);
    assert!(options.last_will.retain);
    let credentials = options.credentials.unwrap();
    assert_eq!(credentials.username(), "alice");
    assert_eq!(credentials.password(), "sesame");
}

#[test]
fn poll_errors_back_off_and_emit_one_disconnect_per_connection_edge() {
    let mut reconnect = ReconnectState::default();
    reconnect.connected();

    let (first_disconnected, first_wait) = reconnect.after_poll_error();
    let (second_disconnected, second_wait) = reconnect.after_poll_error();

    assert_eq!(first_wait + second_wait, 750);
    assert!(first_disconnected);
    assert!(!second_disconnected);
}

#[test]
fn waits_between_connections_double_up_to_a_limit_and_start_over() {
    let mut reconnect = ReconnectState::default();
    let mut waits = Vec::new();
    for _ in 0..9 {
        let (disconnected, wait) = reconnect.after_poll_error();
        assert!(!disconnected);
        waits.push(wait);
    }
    assert_eq!(
        waits,
        vec![250, 500, 1_000, 2_000, 4_000, 8_000, 16_000, 30_000, 30_000]
    );
    assert_eq!(MAX_RECONNECT_BACKOFF_MS, 30_000);

    reconnect.connected();
    assert_eq!(reconnect.after_poll_error(), (true, 250));
}

#[test]
fn disconnect_resets_inflight_packet_ids_before_offline_delivery_tracking() {
    let mut tracker = DeliveryTracker::default();
    let stale = tracker.reserve(true).unwrap();
    tracker.outgoing_publish(7);

    tracker.connection_lost();
    let offline = tracker.reserve(true).unwrap();
    tracker.outgoing_publish(7);
    assert_eq!(tracker.outcome(stale), Some(DeliveryOutcome::Lost));
    assert_eq!(tracker.outcome(offline), None);

    tracker.puback(7);
    assert_eq!(tracker.outcome(offline), Some(DeliveryOutcome::Delivered));
}

#[test]
fn retransmitted_packet_id_does_not_consume_the_next_queued_ticket() {
    let mut tracker = DeliveryTracker::default();
    let first = tracker.reserve(true).unwrap();
    let second = tracker.reserve(true).unwrap();

    tracker.outgoing_publish(9);
    tracker.outgoing_publish(9);
    tracker.puback(9);
    assert_eq!(tracker.outcome(first), Some(DeliveryOutcome::Delivered));
    assert_eq!(tracker.outcome(second), None);

    tracker.outgoing_publish(10);
    tracker.puback(10);
    assert_eq!(tracker.outcome(second), Some(DeliveryOutcome::Delivered));
}

#[test]
fn lost_offline_ticket_fails_without_waiting_for_delivery_timeout() {
    let mut tracker = DeliveryTracker::default();
    let offline = tracker.reserve(true).unwrap();
    tracker.outgoing_publish(11);
    tracker.connection_lost();

    let error = tracker.verdict(offline).unwrap().unwrap_err();

    assert_eq!(error.message(), "MQTT offline status was not acknowledged");
}

#[test]
fn outcomes_stay_once_they_are_known() {
    let mut tracker = DeliveryTracker::default();
    let ticket = tracker.reserve(true).unwrap();
    assert!(tracker.verdict(ticket).is_none());
    tracker.outgoing_publish(3);
    tracker.puback(3);
    assert!(matches!(tracker.verdict(ticket), Some(Ok(()))));

    tracker.connection_lost();
    assert_eq!(tracker.outcome(ticket), Some(DeliveryOutcome::Delivered));
    assert!(tracker.is_idle());
}

#[test]
fn cancelled_tickets_are_lost_and_unobserved_ones_leave_no_outcome() {
    let mut tracker = DeliveryTracker::default();
    let unobserved = tracker.reserve(false).unwrap();
    let cancelled = tracker.reserve(true).unwrap();
    assert!(!tracker.is_idle());
    tracker.cancel(cancelled);
    tracker.outgoing_publish(1);
    tracker.puback(1);
    assert_eq!(tracker.outcome(unobserved), None);
    assert_eq!(tracker.outcome(cancelled), Some(DeliveryOutcome::Lost));
    assert_eq!(tracker.outcome(DeliveryTicket { value: 99 }), None);
    assert!(tracker.is_idle());
    tracker.puback(1);
    assert!(tracker.is_idle());
}

#[test]
fn parser_rejects_missing_duplicate_and_empty_values_without_echoing_values() {
    for input in [
        "MQTT_USERNAME=alice\n",
        "MQTT_USERNAME=alice\nMQTT_USERNAME=bob\n",
        "MQTT_PASSWORD=\n",
    ] {
        let error = parse_environment_file(input)
            .and_then(|values| {
                let contains = |name: &str| values.iter().any(|(variable, _)| variable == name);
                if contains("MQTT_USERNAME") && contains("MQTT_PASSWORD") {
                    Ok(values)
                } else {
                    Err(MqttError::credential(
                        "required credential variable is missing",
                    ))
                }
            })
            .unwrap_err();
        let rendered = error.message();
        assert!(!rendered.contains("alice"));
        assert!(!rendered.contains("bob"));
    }
}

#[test]
fn credential_lines_are_read_in_order() {
    let values =
        parse_environment_file("# broker\n\nMQTT_USERNAME=alice\r\n_KEY2=a=b\n").unwrap();
    assert_eq!(
        values,
        vec![
            ("MQTT_USERNAME".to_owned(), "alice".to_owned()),
            ("_KEY2".to_owned(), "a=b".to_owned()),
        ]
    );
    assert_eq!(required_credential(&values, "_KEY2").unwrap(), "a=b");
    assert_eq!(
        required_credential(&values, "MQTT_PASSWORD")
            .unwrap_err()
            .message(),
        "required credential variable is missing"
    );
}

#[test]
fn each_faulty_credential_line_has_its_reason() {
    let long = format!("A={}\n", "x".repeat(MAX_CREDENTIAL_VALUE_BYTES + 1));
    for (input, reason) in [
        ("MQTT_USERNAME\n", "credential line must be KEY=value"),
        ("2A=x\n", "credential entry is invalid"),
        ("A B=x\n", "credential entry is invalid"),
        ("=x\n", "credential entry is invalid"),
        ("A=\n", "credential entry is invalid"),
        ("A=\0\n", "credential entry is invalid"),
        (long.as_str(), "credential entry is invalid"),
        ("A=1\nA=2\n", "credential variable is duplicated"),
    ] {
        let error = parse_environment_file(input).unwrap_err();
        assert_eq!(error.message(), reason);
        assert!(matches!(error.kind, MqttErrorKind::Credential));
    }
}

#[test]
fn credentials_are_read_from_the_bytes_of_a_file() {
    let bytes = "MQTT_USERNAME=alice\nMQTT_PASSWORD=gr\u{fc}n\n".as_bytes().to_vec();
    let credentials = read_credentials(&bytes, &source()).unwrap();
    assert_eq!(credentials.username(), "alice");
    assert_eq!(credentials.password(), "gr\u{fc}n");

    assert_eq!(
        read_credentials(&vec![0xff, 0xfe], &source())
            .err()
            .unwrap()
            .message(),
        "credential file must be UTF-8"
    );
    assert_eq!(
        read_credentials(&b"MQTT_USERNAME=alice\n".to_vec(), &source())
            .err()
            .unwrap()
            .message(),
        "required credential variable is missing"
    );
}

#[test]
fn loader_rejects_oversize_regular_file() {
    let bytes = vec![b'x'; MAX_CREDENTIAL_FILE_BYTES as usize + 1];
    let facts = FileFacts {
        length: bytes.len() as u64,
        ..private_file()
    };
    assert!(facts.accept_named().is_ok());
    assert_eq!(
        facts.accept_opened(true).unwrap_err().message(),
        "credential file must be a bounded regular file"
    );
    assert_eq!(
        read_credentials(&bytes, &source()).err().unwrap().message(),
        "credential file is too large"
    );
}

#[test]
fn loader_rejects_symlink_and_group_or_world_readable_credential_files() {
    assert!(private_file().accept_named().is_ok());
    assert!(private_file().accept_opened(true).is_ok());

    let linked = FileFacts {
        symlink: true,
        ..private_file()
    };
    assert!(linked.accept_named().is_err());

    let shared = FileFacts {
        permissions: 0o644,
        ..private_file()
    };
    assert!(shared.accept_named().is_err());
    assert!(shared.accept_opened(true).is_err());
    assert!(private_file().accept_opened(false).is_err());
    let directory = FileFacts {
        regular: false,
        ..private_file()
    };
    assert!(directory.accept_named().is_err());
    assert!(directory.accept_opened(true).is_err());
}

#[test]
fn nix_store_is_never_a_runtime_credential_source() {
    assert!(!path_is_outside_nix_store("/nix/store/example/mqtt.env"));
    assert!(path_is_outside_nix_store("/run/credentials/mqtt.env"));
}

#[test]
fn resolved_credential_paths_are_absolute_and_outside_the_store() {
    assert!(accept_resolved("/run/credentials/mqtt.env").is_ok());
    assert!(accept_resolved("/nix/storefront/mqtt.env").is_ok());
    assert!(accept_resolved("/nix/store").is_err());
    assert!(accept_resolved("run/credentials/mqtt.env").is_err());
}

#[test]
fn only_transport_errors_are_transient() {
    assert!(MqttError::transport("gone").is_transient());
    assert!(!MqttError::credential("bad").is_transient());
    assert!(!MqttError::fatal("over").is_transient());
}

#[test]
fn status_topics_and_borrowed_messages_keep_what_they_are_given() {
    assert_eq!(status_topic("house/v1"), "house/v1/status");
    let message = OwnedInboundMessage {
        topic: "zigbee2mqtt/device".to_owned(),
        payload: b"{}".to_vec(),
        retain: true,
        duplicate: false,
        qos: Qos::AtLeastOnce,
    };
    let inbound = message.as_inbound();
    assert_eq!(inbound.topic(), "zigbee2mqtt/device");
    assert_eq!(inbound.payload(), b"{}");
    assert!(inbound.retain());
    assert!(!inbound.duplicate());
    assert_eq!(inbound.qos(), Qos::AtLeastOnce);
}

#[test]
fn inbound_debug_never_renders_raw_mqtt_payload() {
    let message = OwnedInboundMessage {
        topic: "zigbee2mqtt/device".to_owned(),
        payload: b"raw-payload-sentinel".to_vec(),
        retain: true,
        duplicate: false,
        qos: Qos::AtLeastOnce,
    };

    let message_debug = message.redacted();
    let event_debug = TransportEvent::Publish(message).redacted();
    assert!(message_debug.contains("<redacted>"));
    assert!(event_debug.contains("<redacted>"));
    assert!(!message_debug.contains("114, 97, 119"));
    assert!(!event_debug.contains("114, 97, 119"));
}

#[test]
fn logs_show_messages_and_settings_without_secrets() {
    let message = OwnedInboundMessage {
        topic: "living/\"lamp\"\n".to_owned(),
        payload: b"secret".to_vec(),
        retain: false,
        duplicate: true,
        qos: Qos::ExactlyOnce,
    };
    assert_eq!(
        message.redacted(),
        "OwnedInboundMessage { topic: \"living/\\\"lamp\\\"\\n\", payload: \"<redacted>\", retain: false, duplicate: true, qos: ExactlyOnce }"
    );
    assert_eq!(
        TransportEvent::Publish(OwnedInboundMessage {
            topic: "a".to_owned(),
            payload: Vec::new(),
            retain: true,
            duplicate: false,
            qos: Qos::AtMostOnce,
        })
        .redacted(),
        "Publish(OwnedInboundMessage { topic: \"a\", payload: \"<redacted>\", retain: true, duplicate: false, qos: AtMostOnce })"
    );
    assert_eq!(TransportEvent::Connected.redacted(), "Connected");
    assert_eq!(TransportEvent::Disconnected.redacted(), "Disconnected");
    let credentials = MqttCredentials {
        username: "alice".to_owned(),
        password: "sesame".to_owned(),
    };
    assert_eq!(credentials.redacted(), "MqttCredentials(<redacted>)");
    assert_eq!(source().redacted(), "MqttCredentialSource(<redacted>)");
    assert_eq!(
        settings().redacted(),
        "MqttSettings { host: \"<redacted>\", port: 1883, client_id: \"<redacted>\", application_namespace: \"<redacted>\", zigbee2mqtt_base_topic: \"<redacted>\", credentials: None }"
    );
    let mut known = settings();
    known.credentials = Some(source());
    assert!(known.redacted().ends_with("credentials: Some(\"<redacted>\") }"));
}
