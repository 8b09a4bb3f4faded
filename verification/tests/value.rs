use house_automation::double::Double;
use house_automation::value::{
    Brightness, Capabilities, Color, DeviceTarget, Kelvin, KelvinRange, LightTarget,
};

fn d(value: f64) -> Double {
    Double::from_bits(value.to_bits())
}

fn f(value: Double) -> f64 {
    f64::from_bits(value.to_bits())
}

#[test]
fn brightness_rejects_non_finite_and_out_of_range_values() {
    for value in [d(f64::NAN), d(f64::NEG_INFINITY), d(f64::INFINITY), d(-0.01), d(1.01)] {
        assert!(Brightness::new(value).is_err(), "accepted {value:?}");
    }

    assert_eq!(Brightness::new(d(0.0)).unwrap().get(), d(0.0));
    assert_eq!(Brightness::new(d(1.0)).unwrap().get(), d(1.0));
}

#[test]
fn brightness_clamped_bounds_finite_values() {
    assert_eq!(Brightness::clamped(d(-0.5)).unwrap().get(), d(0.0));
    assert_eq!(Brightness::clamped(d(1.5)).unwrap().get(), d(1.0));
}

#[test]
fn brightness_clamped_rejects_non_finite_values() {
    for value in [d(f64::NAN), d(f64::NEG_INFINITY), d(f64::INFINITY)] {
        assert!(Brightness::clamped(value).is_err(), "accepted {value:?}");
    }
}

#[test]
fn brightness_offset_is_clamped_to_normalized_bounds() {
    let brightness = Brightness::new(d(0.4)).unwrap();

    assert!((f(brightness.with_offset(d(0.2)).unwrap().get()) - 0.6).abs() < f64::EPSILON);
    assert_eq!(brightness.with_offset(d(-0.8)).unwrap().get(), d(0.0));
    assert_eq!(brightness.with_offset(d(0.8)).unwrap().get(), d(1.0));
    assert_eq!(brightness.with_offset(d(f64::MAX)).unwrap().get(), d(1.0));
}

#[test]
fn brightness_offset_rejects_non_finite_values() {
    let brightness = Brightness::new(d(0.4)).unwrap();

    for offset in [d(f64::NAN), d(f64::NEG_INFINITY), d(f64::INFINITY)] {
        assert!(brightness.with_offset(offset).is_err(), "accepted {offset:?}");
    }
}

#[test]
fn kelvin_and_kelvin_ranges_validate_their_bounds() {
    for value in [
        d(f64::NAN),
        d(f64::NEG_INFINITY),
        d(f64::INFINITY),
        d(-1.0),
        d(0.0),
        d(1e-309),
    ] {
        assert!(Kelvin::new(value).is_err(), "accepted {value:?}");
    }
    assert!(KelvinRange::new(d(0.0), d(4000.0)).is_err());
    assert!(KelvinRange::new(d(4000.0), d(3000.0)).is_err());

    let range = KelvinRange::new(d(2200.0), d(6500.0)).unwrap();
    assert_eq!(range.min().get(), d(2200.0));
    assert_eq!(range.max().get(), d(6500.0));
}

#[test]
fn kelvin_range_clamps_values_and_signed_offsets() {
    let range = KelvinRange::new(d(2200.0), d(6500.0)).unwrap();

    assert_eq!(range.clamp(Kelvin::new(d(1800.0)).unwrap()).get(), d(2200.0));
    assert_eq!(range.clamp(Kelvin::new(d(7000.0)).unwrap()).get(), d(6500.0));
    assert_eq!(
        range
            .with_offset(Kelvin::new(d(3000.0)).unwrap(), d(-1000.0))
            .unwrap()
            .get(),
        d(2200.0)
    );
    assert_eq!(
        range
            .with_offset(Kelvin::new(d(6000.0)).unwrap(), d(1000.0))
            .unwrap()
            .get(),
        d(6500.0)
    );
}

#[test]
fn kelvin_offset_rejects_non_finite_inputs_and_results() {
    let range = KelvinRange::new(d(2200.0), d(6500.0)).unwrap();
    let kelvin = Kelvin::new(d(3000.0)).unwrap();

    for offset in [d(f64::NAN), d(f64::NEG_INFINITY), d(f64::INFINITY)] {
        assert!(
            range.with_offset(kelvin, offset).is_err(),
            "accepted {offset:?}"
        );
    }

    let huge_range = KelvinRange::new(d(1.0), d(f64::MAX)).unwrap();
    assert!(
        huge_range
            .with_offset(Kelvin::new(d(f64::MAX)).unwrap(), d(f64::MAX))
            .is_err()
    );
}

#[test]
fn color_validates_xy_and_hue_saturation_ranges() {
    assert_eq!(
        Color::xy(d(0.25), d(0.75)).unwrap().xy_components(),
        Some((d(0.25), d(0.75)))
    );
    assert_eq!(
        Color::hs(d(240.0), d(0.8)).unwrap().hs_components(),
        Some((d(240.0), d(0.8)))
    );

    for (x, y) in [(d(-0.1), d(0.5)), (d(0.5), d(1.1)), (d(f64::NAN), d(0.5))] {
        assert!(Color::xy(x, y).is_err(), "accepted ({x:?}, {y:?})");
    }
    for (hue, saturation) in [(d(-0.1), d(0.5)), (d(360.1), d(0.5)), (d(180.0), d(1.1)), (d(f64::NAN), d(0.5))] {
        assert!(
            Color::hs(hue, saturation).is_err(),
            "accepted ({hue:?}, {saturation:?})"
        );
    }
}

#[test]
fn degradation_omits_unsupported_fields_and_unused_transition() {
    let target = LightTarget {
        on: true,
        brightness: Some(Brightness::new(d(0.6)).unwrap()),
        color_temperature: Some(Kelvin::new(d(4000.0)).unwrap()),
        color: Some(Color::xy(d(0.25), d(0.5)).unwrap()),
        transition_ms: Some(750),
    };
    let capabilities = Capabilities {
        on_off: false,
        dimming: false,
        color_temperature: None,
        color_xy: false,
        color_hs: false,
        input: true,
        occupancy: true,
        temperature: true,
        power_metering: true,
    };

    assert_eq!(
        capabilities.degrade(&target),
        DeviceTarget {
            on: None,
            brightness: None,
            color_temperature: None,
            color: None,
            transition_ms: None,
        }
    );
}

#[test]
fn degradation_keeps_transition_when_a_transitionable_field_survives() {
    let target = LightTarget {
        on: true,
        brightness: None,
        color_temperature: None,
        color: Some(Color::xy(d(0.25), d(0.5)).unwrap()),
        transition_ms: Some(750),
    };
    let capabilities = Capabilities {
        on_off: true,
        dimming: false,
        color_temperature: None,
        color_xy: true,
        color_hs: false,
        input: false,
        occupancy: false,
        temperature: false,
        power_metering: false,
    };

    assert_eq!(
        capabilities.degrade(&target),
        DeviceTarget {
            on: Some(true),
            brightness: None,
            color_temperature: None,
            color: target.color,
            transition_ms: Some(750),
        }
    );
}

#[test]
fn degradation_prefers_supported_explicit_color_over_color_temperature() {
    let capabilities = Capabilities {
        on_off: true,
        dimming: true,
        color_temperature: Some(KelvinRange::new(d(2700.0), d(5000.0)).unwrap()),
        color_xy: false,
        color_hs: true,
        input: false,
        occupancy: false,
        temperature: false,
        power_metering: false,
    };
    let target = LightTarget {
        on: false,
        brightness: Some(Brightness::new(d(0.3)).unwrap()),
        color_temperature: Some(Kelvin::new(d(6500.0)).unwrap()),
        color: Some(Color::hs(d(30.0), d(0.7)).unwrap()),
        transition_ms: None,
    };

    let degraded = capabilities.degrade(&target);
    assert_eq!(degraded.on, Some(false));
    assert_eq!(degraded.brightness.unwrap().get(), d(0.3));
    assert_eq!(degraded.color_temperature, None);
    assert_eq!(degraded.color.unwrap().hs_components(), Some((d(30.0), d(0.7))));
}

#[test]
fn degradation_falls_back_to_clamped_cct_when_explicit_color_is_unsupported() {
    let capabilities = Capabilities {
        on_off: true,
        dimming: false,
        color_temperature: Some(KelvinRange::new(d(2700.0), d(5000.0)).unwrap()),
        color_xy: false,
        color_hs: true,
        input: false,
        occupancy: false,
        temperature: false,
        power_metering: false,
    };
    let target = LightTarget {
        on: true,
        brightness: None,
        color_temperature: Some(Kelvin::new(d(6500.0)).unwrap()),
        color: Some(Color::xy(d(0.2), d(0.3)).unwrap()),
        transition_ms: Some(500),
    };

    let degraded = capabilities.degrade(&target);
    assert_eq!(degraded.color, None);
    assert_eq!(degraded.color_temperature.unwrap().get(), d(5000.0));
    assert_eq!(degraded.transition_ms, Some(500));
}
