use house_automation::double::Double;
use house_automation::overlay::{
    AcknowledgementKind, AcknowledgementSettings, OverlayDuration, OverlayEffect, OverlayError,
    OverlayId, OverlaySet,
};
use house_automation::state::{CurveToggleOutcome, MonotonicTime};
use house_automation::value::{
    Brightness, Capabilities, Color, Kelvin, KelvinRange, LayeredLightTarget,
};

fn d(value: f64) -> Double {
    Double::from_bits(value.to_bits())
}

fn f(value: Double) -> f64 {
    f64::from_bits(value.to_bits())
}

fn now(seconds: Double) -> MonotonicTime {
    MonotonicTime::from_seconds(seconds).unwrap()
}

fn range() -> KelvinRange {
    KelvinRange::new(d(2_200.0), d(6_500.0)).unwrap()
}

fn layers(on: bool, brightness: Option<Double>, kelvin: Option<Double>) -> LayeredLightTarget {
    LayeredLightTarget::new(on, brightness, kelvin, None, None).unwrap()
}

fn id(value: &str) -> OverlayId {
    OverlayId::new(value.to_owned()).unwrap()
}

fn full_capabilities(dimming: bool) -> Capabilities {
    Capabilities {
        on_off: true,
        dimming,
        color_temperature: Some(range()),
        color_xy: true,
        color_hs: true,
        input: false,
        occupancy: false,
        temperature: false,
        power_metering: false,
    }
}

#[test]
fn overlays_apply_before_the_only_final_clamp() {
    let mut overlays = OverlaySet::default();
    overlays
        .insert(
            id("signal"),
            OverlayEffect::brightness_delta(d(-0.2)).unwrap(),
            0,
            now(d(0.0)),
            OverlayDuration::from_seconds(d(10.0)).unwrap(),
        )
        .unwrap();
    overlays
        .insert(
            id("warmer"),
            OverlayEffect::color_temperature_delta(d(-500.0)).unwrap(),
            0,
            now(d(0.0)),
            OverlayDuration::from_seconds(d(10.0)).unwrap(),
        )
        .unwrap();

    let composed = overlays
        .compose(layers(true, Some(d(1.2)), Some(d(6_000.0))), now(d(1.0)), range())
        .unwrap();

    assert_eq!(composed.brightness.unwrap().get(), d(1.0));
    assert_eq!(composed.color_temperature.unwrap().get(), d(5_500.0));
}

#[test]
fn expiry_boundary_discards_overlay_and_recomputes_current_underlying_target() {
    let mut overlays = OverlaySet::new();
    overlays
        .insert(
            id("hourly"),
            OverlayEffect::brightness_delta(d(0.2)).unwrap(),
            0,
            now(d(10.0)),
            OverlayDuration::from_seconds(d(5.0)).unwrap(),
        )
        .unwrap();

    let during = overlays
        .compose(layers(true, Some(d(0.4)), None), now(d(14.999)), range())
        .unwrap();
    assert!((f(during.brightness.unwrap().get()) - 0.6).abs() < 1e-12);

    let expired = overlays
        .compose(layers(true, Some(d(0.7)), None), now(d(15.0)), range())
        .unwrap();
    assert_eq!(expired.brightness.unwrap().get(), d(0.7));
    assert_eq!(overlays.stored_count(), 0);
}

#[test]
fn same_key_replaces_effect_expiry_and_insertion_position() {
    let mut overlays = OverlaySet::new();
    let key = id("notification");
    overlays
        .insert(
            key.clone(),
            OverlayEffect::scene(Some(Brightness::new(d(0.2)).unwrap()), None, None).unwrap(),
            0,
            now(d(0.0)),
            OverlayDuration::from_seconds(d(1.0)).unwrap(),
        )
        .unwrap();
    overlays
        .insert(
            id("between"),
            OverlayEffect::brightness_delta(d(0.1)).unwrap(),
            0,
            now(d(0.25)),
            OverlayDuration::from_seconds(d(10.0)).unwrap(),
        )
        .unwrap();
    overlays
        .insert(
            key,
            OverlayEffect::scene(Some(Brightness::new(d(0.3)).unwrap()), None, None).unwrap(),
            0,
            now(d(0.5)),
            OverlayDuration::from_seconds(d(10.0)).unwrap(),
        )
        .unwrap();

    let composed = overlays
        .compose(layers(true, Some(d(0.5)), None), now(d(2.0)), range())
        .unwrap();
    assert_eq!(composed.brightness.unwrap().get(), d(0.3));
    assert_eq!(overlays.stored_count(), 2);
}

#[test]
fn distinct_overlays_compose_by_priority_then_insertion_sequence() {
    let mut overlays = OverlaySet::new();
    overlays
        .insert(
            id("absolute-high"),
            OverlayEffect::scene(Some(Brightness::new(d(0.8)).unwrap()), None, None).unwrap(),
            10,
            now(d(0.0)),
            OverlayDuration::from_seconds(d(10.0)).unwrap(),
        )
        .unwrap();
    overlays
        .insert(
            id("absolute-low"),
            OverlayEffect::scene(Some(Brightness::new(d(0.3)).unwrap()), None, None).unwrap(),
            0,
            now(d(0.0)),
            OverlayDuration::from_seconds(d(10.0)).unwrap(),
        )
        .unwrap();
    overlays
        .insert(
            id("same-priority-later"),
            OverlayEffect::brightness_delta(d(0.2)).unwrap(),
            0,
            now(d(0.0)),
            OverlayDuration::from_seconds(d(10.0)).unwrap(),
        )
        .unwrap();

    let composed = overlays
        .compose(layers(true, Some(d(0.1)), None), now(d(1.0)), range())
        .unwrap();
    assert_eq!(composed.brightness.unwrap().get(), d(0.8));
}

#[test]
fn cancellation_removes_only_the_selected_overlay() {
    let mut overlays = OverlaySet::new();
    for (key, delta) in [("first", d(0.1)), ("second", d(0.2))] {
        overlays
            .insert(
                id(key),
                OverlayEffect::brightness_delta(delta).unwrap(),
                0,
                now(d(0.0)),
                OverlayDuration::from_seconds(d(10.0)).unwrap(),
            )
            .unwrap();
    }

    assert!(overlays.cancel(&id("first")));
    assert!(!overlays.cancel(&id("missing")));
    let composed = overlays
        .compose(layers(true, Some(d(0.3)), None), now(d(1.0)), range())
        .unwrap();
    assert_eq!(composed.brightness.unwrap().get(), d(0.5));
}

#[test]
fn absolute_color_and_temperature_scenes_have_explicit_mutual_precedence() {
    let mut color_overlays = OverlaySet::new();
    let color = Color::xy(d(0.25), d(0.4)).unwrap();
    color_overlays
        .insert(
            id("color"),
            OverlayEffect::scene(None, Some(Kelvin::new(d(2_700.0)).unwrap()), Some(color))
                .unwrap(),
            0,
            now(d(0.0)),
            OverlayDuration::from_seconds(d(10.0)).unwrap(),
        )
        .unwrap();
    let color_target = color_overlays
        .compose(layers(true, Some(d(0.5)), Some(d(4_000.0))), now(d(1.0)), range())
        .unwrap();
    assert_eq!(color_target.color, Some(color));
    assert_eq!(color_target.color_temperature, None);

    let mut temperature_overlays = OverlaySet::new();
    temperature_overlays
        .insert(
            id("first-color"),
            OverlayEffect::scene(None, None, Some(color)).unwrap(),
            0,
            now(d(0.0)),
            OverlayDuration::from_seconds(d(10.0)).unwrap(),
        )
        .unwrap();
    temperature_overlays
        .insert(
            id("later-temperature"),
            OverlayEffect::scene(None, Some(Kelvin::new(d(3_200.0)).unwrap()), None).unwrap(),
            0,
            now(d(0.0)),
            OverlayDuration::from_seconds(d(10.0)).unwrap(),
        )
        .unwrap();
    let temperature_target = temperature_overlays
        .compose(layers(true, Some(d(0.5)), None), now(d(1.0)), range())
        .unwrap();
    assert_eq!(temperature_target.color, None);
    assert_eq!(temperature_target.color_temperature.unwrap().get(), d(3_200.0));
}

#[test]
fn overlay_inputs_expiry_math_and_clock_regression_fail_explicitly() {
    assert!(OverlayId::new("bad/key".to_owned()).is_err());
    assert_eq!(id("hourly-signal").as_str(), "hourly-signal");
    for invalid in [d(f64::NAN), d(f64::NEG_INFINITY), d(f64::INFINITY)] {
        assert!(OverlayEffect::brightness_delta(invalid).is_err());
        assert!(OverlayEffect::color_temperature_delta(invalid).is_err());
        assert!(OverlayDuration::from_seconds(invalid).is_err());
    }
    assert!(OverlayDuration::from_seconds(d(0.0)).is_err());
    assert!(OverlayDuration::from_seconds(d(-1.0)).is_err());
    assert!(OverlayEffect::scene(None, None, None).is_err());

    let mut overflow = OverlaySet::new();
    assert_eq!(
        overflow.insert(
            id("overflow"),
            OverlayEffect::brightness_delta(d(0.1)).unwrap(),
            0,
            now(d(f64::MAX)),
            OverlayDuration::from_seconds(d(f64::MAX)).unwrap(),
        ),
        Err(OverlayError::ExpiryOverflow)
    );

    let mut regressed = OverlaySet::new();
    regressed
        .insert(
            id("clock"),
            OverlayEffect::brightness_delta(d(0.1)).unwrap(),
            0,
            now(d(5.0)),
            OverlayDuration::from_seconds(d(1.0)).unwrap(),
        )
        .unwrap();
    assert_eq!(
        regressed.compose(layers(true, Some(d(0.5)), None), now(d(4.0)), range()),
        Err(OverlayError::MonotonicClockRegressed)
    );
}

#[test]
fn insertion_sequence_exhaustion_never_wraps_or_mutates_existing_entries() {
    let mut overlays = OverlaySet::new();
    overlays.next_sequence = u64::MAX;
    assert_eq!(
        overlays.insert(
            id("overflow"),
            OverlayEffect::brightness_delta(d(0.1)).unwrap(),
            0,
            now(d(0.0)),
            OverlayDuration::from_seconds(d(1.0)).unwrap(),
        ),
        Err(OverlayError::SequenceExhausted)
    );
    assert_eq!(overlays.stored_count(), 0);
}

#[test]
fn acknowledgement_kinds_choose_distinct_absolute_targets_at_boundaries() {
    let settings = AcknowledgementSettings::new(id("circadian-ack"), d(0.1), d(0.5), 100).unwrap();
    for (starting, expected_frozen, expected_unfrozen) in [
        (d(0.0), d(0.1), d(0.2)),
        (d(0.05), d(0.15), d(0.25)),
        (d(0.5), d(0.6), d(0.4)),
        (d(0.95), d(0.85), d(0.75)),
        (d(1.0), d(0.9), d(0.8)),
    ] {
        for (outcome, expected) in [
            (CurveToggleOutcome::Frozen, expected_frozen),
            (CurveToggleOutcome::Unfrozen, expected_unfrozen),
        ] {
            let underlying = layers(true, Some(starting), None);
            let request = settings
                .for_toggle(outcome, &underlying, full_capabilities(true))
                .unwrap();
            let mut overlays = OverlaySet::new();
            overlays
                .insert_request(request.into_overlay(), now(d(0.0)))
                .unwrap();
            let composed = overlays.compose(underlying, now(d(0.1)), range()).unwrap();
            assert!(
                (f(composed.brightness.unwrap().get()) - f(expected)).abs() < 1e-12,
                "starting {starting:?}, outcome {outcome:?}"
            );
            assert!(composed.on);
        }
    }
}

#[test]
fn acknowledgement_targets_remain_distinct_for_adversarial_brightness_values() {
    let settings = AcknowledgementSettings::new(id("circadian-ack"), d(0.25), d(0.5), 100).unwrap();
    for starting in [
        d(f64::from_bits(0.0_f64.to_bits() + 1)),
        d(0.499_999_999_999_999_94),
        d(f64::from_bits(0.5_f64.to_bits() + 1)),
        d(f64::from_bits(1.0_f64.to_bits() - 1)),
    ] {
        let mut outputs = Vec::new();
        for outcome in [CurveToggleOutcome::Frozen, CurveToggleOutcome::Unfrozen] {
            let underlying = layers(true, Some(starting), None);
            let request = settings
                .for_toggle(outcome, &underlying, full_capabilities(true))
                .unwrap();
            let mut overlays = OverlaySet::new();
            overlays
                .insert_request(request.into_overlay(), now(d(0.0)))
                .unwrap();
            outputs.push(
                overlays
                    .compose(underlying, now(d(0.1)), range())
                    .unwrap()
                    .brightness
                    .unwrap()
                    .get(),
            );
        }
        assert!(outputs.iter().all(|value| value.is_finite()));
        assert!(
            outputs
                .iter()
                .all(|value| *value != starting.clamp(d(0.0), d(1.0))),
            "starting {starting:?}"
        );
        assert_ne!(outputs[0], outputs[1], "starting {starting:?}");
    }
}

#[test]
fn acknowledgement_is_visible_when_raw_brightness_is_outside_final_bounds() {
    let settings = AcknowledgementSettings::new(id("circadian-ack"), d(0.1), d(0.5), 100).unwrap();
    for (raw, normal, acknowledged) in [(d(1.2), d(1.0), d(0.9)), (d(-0.2), d(0.0), d(0.1))] {
        let underlying = layers(true, Some(raw), None);
        let normal_target = underlying.finalize(range()).unwrap();
        assert_eq!(normal_target.brightness.unwrap().get(), normal);

        let request = settings
            .for_toggle(
                CurveToggleOutcome::Frozen,
                &underlying,
                full_capabilities(true),
            )
            .unwrap();
        let mut overlays = OverlaySet::new();
        overlays
            .insert_request(request.into_overlay(), now(d(0.0)))
            .unwrap();
        let signalled = overlays.compose(underlying, now(d(0.1)), range()).unwrap();
        assert_eq!(signalled.brightness.unwrap().get(), acknowledged);
        assert_ne!(signalled.brightness, normal_target.brightness);
    }
}

#[test]
fn acknowledgement_never_flashes_off_or_non_dimmable_targets() {
    let settings = AcknowledgementSettings::new(id("circadian-ack"), d(0.1), d(0.5), 100).unwrap();

    assert!(
        settings
            .for_toggle(
                CurveToggleOutcome::Frozen,
                &layers(false, Some(d(0.5)), None),
                full_capabilities(true),
            )
            .is_none()
    );
    assert!(
        settings
            .for_toggle(
                CurveToggleOutcome::Frozen,
                &layers(true, Some(d(0.5)), None),
                full_capabilities(false),
            )
            .is_none()
    );
    assert!(
        settings
            .for_toggle(
                CurveToggleOutcome::Frozen,
                &layers(true, None, None),
                full_capabilities(true),
            )
            .is_none()
    );
}

#[test]
fn successful_freeze_and_unfreeze_acknowledgements_are_distinct_and_replace() {
    let settings = AcknowledgementSettings::new(id("circadian-ack"), d(0.1), d(0.5), 100).unwrap();
    let freeze = settings
        .for_toggle(
            CurveToggleOutcome::Frozen,
            &layers(true, Some(d(0.5)), None),
            full_capabilities(true),
        )
        .unwrap();
    let unfreeze = settings
        .for_toggle(
            CurveToggleOutcome::Unfrozen,
            &layers(true, Some(d(0.5)), None),
            full_capabilities(true),
        )
        .unwrap();
    assert_eq!(freeze.kind(), AcknowledgementKind::Frozen);
    assert_eq!(unfreeze.kind(), AcknowledgementKind::Unfrozen);

    let mut overlays = OverlaySet::new();
    overlays
        .insert_request(freeze.into_overlay(), now(d(0.0)))
        .unwrap();
    let frozen = overlays
        .compose(layers(true, Some(d(0.5)), None), now(d(0.05)), range())
        .unwrap();
    assert_eq!(frozen.brightness.unwrap().get(), d(0.6));
    overlays
        .insert_request(unfreeze.into_overlay(), now(d(0.1)))
        .unwrap();
    assert_eq!(overlays.stored_count(), 1);
    let unfrozen = overlays
        .compose(layers(true, Some(d(0.5)), None), now(d(0.11)), range())
        .unwrap();
    assert_eq!(unfrozen.brightness.unwrap().get(), d(0.4));
    let expired = overlays
        .compose(layers(true, Some(d(0.4)), None), now(d(0.6)), range())
        .unwrap();
    assert_eq!(expired.brightness.unwrap().get(), d(0.4));
}

#[test]
fn acknowledgement_settings_reject_invalid_amplitude_and_duration() {
    const MINIMUM: f64 = 0.01;
    const MAXIMUM: f64 = 0.25;
    assert!(AcknowledgementSettings::new(id("circadian-ack"), d(MINIMUM), d(0.5), 100).is_ok());
    assert!(AcknowledgementSettings::new(id("circadian-ack"), d(MAXIMUM), d(0.5), 100).is_ok());
    for amplitude in [
        d(0.0),
        d(-0.1),
        d(f64::NAN),
        d(f64::INFINITY),
        d(f64::from_bits(MINIMUM.to_bits() - 1)),
        d(f64::from_bits(MAXIMUM.to_bits() + 1)),
    ] {
        assert!(
            AcknowledgementSettings::new(id("circadian-ack"), amplitude, d(0.5), 100).is_err()
        );
    }
    assert!(AcknowledgementSettings::new(id("circadian-ack"), d(0.1), d(0.0), 100).is_err());
    assert_eq!(
        AcknowledgementSettings::new(id("circadian-ack"), d(0.251), d(0.5), 100),
        Err(OverlayError::AmplitudeOutOfRange)
    );
}


#[test]
fn the_earliest_expiry_comes_next() {
    let mut overlays = OverlaySet::new();
    assert_eq!(overlays.next_expiry(), None);
    for (name, seconds) in [("late", 30.0), ("early", 5.0), ("middle", 12.0)] {
        overlays
            .insert(
                id(name),
                OverlayEffect::brightness_delta(d(0.1)).unwrap(),
                0,
                now(d(10.0)),
                OverlayDuration::from_seconds(d(seconds)).unwrap(),
            )
            .unwrap();
    }
    assert_eq!(overlays.next_expiry(), Some(now(d(15.0))));
    overlays
        .compose(layers(true, Some(d(0.4)), None), now(d(15.0)), range())
        .unwrap();
    assert_eq!(overlays.next_expiry(), Some(now(d(22.0))));
}
