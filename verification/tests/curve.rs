use house_automation::curve::{CircadianCurve, CurveAnchor, CurveError, TimeOfDay};
use house_automation::double::Double;
use house_automation::value::{Brightness, KelvinRange};

fn d(value: f64) -> Double {
    Double::from_bits(value.to_bits())
}

fn f(value: Double) -> f64 {
    f64::from_bits(value.to_bits())
}

fn time(hour: u8, minute: u8) -> TimeOfDay {
    TimeOfDay::from_hms(hour, minute, 0).unwrap()
}

fn anchor(hour: u8, brightness: Double, kelvin: Double) -> CurveAnchor {
    CurveAnchor::new(time(hour, 0), Brightness::new(brightness).unwrap(), kelvin).unwrap()
}

fn default_range() -> KelvinRange {
    KelvinRange::new(d(2_200.0), d(6_500.0)).unwrap()
}

/// The anchors before and after a time of day, around midnight where need be.
fn neighbors(curve: &CircadianCurve, time: TimeOfDay) -> (CurveAnchor, CurveAnchor) {
    let anchors = curve.anchors();
    let after = anchors
        .iter()
        .position(|anchor| anchor.time().seconds() > time.seconds())
        .unwrap_or(0);
    let before = (after + anchors.len() - 1) % anchors.len();
    (anchors[before], anchors[after])
}

#[test]
fn time_of_day_rejects_values_outside_one_day() {
    assert_eq!(TimeOfDay::from_seconds(86_399).unwrap().seconds(), 86_399);
    assert_eq!(
        TimeOfDay::from_seconds(86_400),
        Err(CurveError::InvalidTime)
    );
    assert_eq!(TimeOfDay::from_hms(24, 0, 0), Err(CurveError::InvalidTime));
    assert_eq!(TimeOfDay::from_hms(23, 60, 0), Err(CurveError::InvalidTime));
    assert_eq!(
        TimeOfDay::from_hms(23, 59, 60),
        Err(CurveError::InvalidTime)
    );
}

#[test]
fn exact_anchor_times_return_exact_values() {
    let curve = CircadianCurve::new(vec![
        anchor(6, d(0.2), d(2_700.0)),
        anchor(12, d(0.9), d(5_500.0)),
        anchor(20, d(0.3), d(3_000.0)),
    ])
    .unwrap();

    for expected in curve.anchors() {
        let actual = curve.sample(expected.time(), default_range()).unwrap();
        assert_eq!(actual.brightness(), expected.brightness());
        assert_eq!(actual.color_temperature(), expected.color_temperature());
    }
}

#[test]
fn two_anchors_use_linear_interpolation_in_each_cyclic_segment() {
    let curve =
        CircadianCurve::new(vec![anchor(6, d(0.2), d(2_700.0)), anchor(18, d(0.8), d(5_100.0))]).unwrap();

    let noon = curve.sample(time(12, 0), default_range()).unwrap();
    let midnight = curve.sample(time(0, 0), default_range()).unwrap();
    assert!((f(noon.brightness().get()) - 0.5).abs() < 1e-12);
    assert!((f(noon.color_temperature().get()) - 3_900.0).abs() < 1e-9);
    assert!((f(midnight.brightness().get()) - 0.5).abs() < 1e-12);
    assert!((f(midnight.color_temperature().get()) - 3_900.0).abs() < 1e-9);
}

#[test]
fn midnight_wrap_interpolates_between_last_and_first_anchor() {
    let curve = CircadianCurve::new(vec![
        anchor(4, d(0.2), d(2_500.0)),
        anchor(10, d(0.7), d(4_500.0)),
        anchor(20, d(0.4), d(3_100.0)),
    ])
    .unwrap();

    let at_midnight = curve.sample(time(0, 0), default_range()).unwrap();
    assert!((0.2..=0.4).contains(&f(at_midnight.brightness().get())));
    assert!((2_500.0..=3_100.0).contains(&f(at_midnight.color_temperature().get())));
}

#[test]
fn monotone_segments_do_not_overshoot_neighboring_anchors() {
    let curve = CircadianCurve::new(vec![
        anchor(0, d(0.1), d(2_300.0)),
        anchor(5, d(0.2), d(2_500.0)),
        anchor(9, d(0.8), d(5_500.0)),
        anchor(17, d(0.9), d(6_000.0)),
        anchor(22, d(0.3), d(3_000.0)),
    ])
    .unwrap();

    for second in (0..86_400).step_by(137) {
        let time = TimeOfDay::from_seconds(second).unwrap();
        let point = curve.sample(time, default_range()).unwrap();
        let (lower, upper) = neighbors(&curve, time);
        let brightness = f(point.brightness().get());
        let kelvin = f(point.color_temperature().get());
        let low = f(lower.brightness().get());
        let high = f(upper.brightness().get());
        assert!(
            (low.min(high)..=low.max(high)).contains(&brightness),
            "brightness overshot at {second}: {brightness}"
        );
        let low = f(lower.color_temperature().get());
        let high = f(upper.color_temperature().get());
        assert!(
            (low.min(high)..=low.max(high)).contains(&kelvin),
            "CCT overshot at {second}: {kelvin}"
        );
    }
}

#[test]
fn sampled_values_are_clamped_to_domain_and_requested_kelvin_range() {
    let curve = CircadianCurve::new(vec![
        anchor(0, d(0.0), d(2_000.0)),
        anchor(6, d(1.0), d(7_000.0)),
        anchor(12, d(0.0), d(2_000.0)),
        anchor(18, d(1.0), d(7_000.0)),
    ])
    .unwrap();
    let range = KelvinRange::new(d(2_700.0), d(4_000.0)).unwrap();

    for second in (0..86_400).step_by(97) {
        let point = curve.sample(TimeOfDay::from_seconds(second).unwrap(), range).unwrap();
        assert!((0.0..=1.0).contains(&f(point.brightness().get())));
        assert!((2_700.0..=4_000.0).contains(&f(point.color_temperature().get())));
    }
}

#[test]
fn constructor_sorts_anchors_and_rejects_malformed_sets() {
    assert_eq!(
        CircadianCurve::new(vec![anchor(6, d(0.2), d(2_700.0))]),
        Err(CurveError::TooFewAnchors)
    );
    assert_eq!(
        CircadianCurve::new(vec![anchor(6, d(0.2), d(2_700.0)), anchor(6, d(0.8), d(5_000.0))]),
        Err(CurveError::DuplicateAnchorTime(time(6, 0)))
    );

    let curve =
        CircadianCurve::new(vec![anchor(18, d(0.8), d(5_100.0)), anchor(6, d(0.2), d(2_700.0))]).unwrap();
    assert_eq!(curve.anchors()[0].time(), time(6, 0));
    assert_eq!(curve.anchors()[1].time(), time(18, 0));
}

#[test]
fn anchor_rejects_invalid_kelvin() {
    assert!(CurveAnchor::new(time(6, 0), Brightness::new(d(0.5)).unwrap(), d(f64::NAN)).is_err());
    assert!(CurveAnchor::new(time(6, 0), Brightness::new(d(0.5)).unwrap(), d(0.0)).is_err());
}

#[test]
fn times_of_day_are_ordered_by_the_clock() {
    assert!(time(7, 0) < time(7, 1));
    assert!(time(23, 59) > time(0, 0));
    assert!(time(12, 30) <= time(12, 30));
    let mut times = vec![time(22, 0), time(6, 30), time(6, 0)];
    times.sort();
    assert_eq!(times, vec![time(6, 0), time(6, 30), time(22, 0)]);
}

#[test]
fn every_minute_has_a_point_whatever_the_anchors() {
    for (low, middle, high) in [(0.0, 0.5, 1.0), (1.0, 0.0, 1e-300), (5e-324, 0.3, 0.30000000001)] {
        for (warm, mild, cold) in [
            (1e-290, 2_700.0, 1e288),
            (2_000.0, 2_000.000_000_1, 6_500.0),
            (1e288, 1.0, 1e287),
            (f64::MAX, 1e-290, f64::MAX / 2.0),
            (1.0, f64::MAX / 2.0, f64::MAX),
            (f64::MAX, f64::MAX, f64::MAX),
        ] {
            let curve = CircadianCurve::new(vec![
                anchor(0, d(low), d(warm)),
                anchor(1, d(middle), d(mild)),
                anchor(23, d(high), d(cold)),
            ])
            .unwrap();
            for minute in 0..1_440 {
                assert!(curve.point(TimeOfDay::from_seconds(60 * minute).unwrap()).is_ok());
            }
        }
    }
}

#[test]
fn the_steepest_curves_of_a_second_have_points() {
    let at = |seconds: u32, kelvin: f64| {
        CurveAnchor::new(
            TimeOfDay::from_seconds(seconds).unwrap(),
            Brightness::new(d(0.5)).unwrap(),
            d(kelvin),
        )
        .unwrap()
    };
    for (a, b, c, e) in [
        (1e-290, f64::MAX / 2.0, f64::MAX, 1.0),
        (f64::MAX, f64::MAX / 2.0, 1e-290, 2.0),
        (1.0, f64::MAX, 1.0, f64::MAX),
    ] {
        let curve =
            CircadianCurve::new(vec![at(0, a), at(1, b), at(2, c), at(40_000, e)]).unwrap();
        for seconds in (0..86_400).step_by(37).chain(0..4) {
            assert!(curve.point(TimeOfDay::from_seconds(seconds).unwrap()).is_ok());
        }
    }
}
