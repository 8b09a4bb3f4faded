use house_automation::curve::{CircadianCurve, TimeOfDay};
use house_automation::double::Double;
use house_automation::solar::{
    hour_angle_cosine, solar_noon, sun_rises, year_angle, CircadianSchedule, Coordinates, MonthDay,
    ScheduleError, SeasonAngles, SolarAlmanac, SolarEvents, SolarHybridCurve, TimeZone, WinterHold,
};
use house_automation::state::LocalDate;
use house_automation::value::{Brightness, Kelvin};

fn d(value: f64) -> Double {
    Double::from_bits(value.to_bits())
}

fn f(value: Double) -> f64 {
    f64::from_bits(value.to_bits())
}

fn date(year: i32, month: u8, day: u8) -> LocalDate {
    LocalDate::new(year, month, day).unwrap()
}

fn stockholm() -> Coordinates {
    Coordinates::new(d(59.3), d(18.1)).unwrap()
}

fn month_day(month: u8, day: u8) -> MonthDay {
    MonthDay::new(month, day).unwrap()
}

fn time(hour: u8, minute: u8) -> TimeOfDay {
    TimeOfDay::from_hms(hour, minute, 0).unwrap()
}

fn hybrid_curve(winter_hold: Option<WinterHold>) -> SolarHybridCurve {
    SolarHybridCurve::new(
        stockholm(),
        TimeZone::stockholm(),
        time(7, 0),
        time(23, 0),
        Brightness::new(d(0.1)).unwrap(),
        Brightness::new(d(1.0)).unwrap(),
        Kelvin::new(d(2_200.0)).unwrap(),
        Kelvin::new(d(5_000.0)).unwrap(),
        winter_hold,
    )
    .unwrap()
}

/// What the sun does on a day. The trigonometry is that of the machine; everything
/// around it is the library's.
fn solar_events(date: LocalDate, coordinates: Coordinates, zone: &TimeZone) -> SolarEvents {
    let angle = f(year_angle(date));
    let season = SeasonAngles {
        cosine: d(angle.cos()),
        sine: d(angle.sin()),
        double_cosine: d((2.0 * angle).cos()),
        double_sine: d((2.0 * angle).sin()),
        triple_cosine: d((3.0 * angle).cos()),
        triple_sine: d((3.0 * angle).sin()),
    };
    let declination = f(season.declination());
    let latitude = f(coordinates.latitude).to_radians();
    let noon = solar_noon(
        coordinates.longitude,
        season.equation_of_time(),
        zone.noon_offset_seconds(date).unwrap(),
    );
    let cosine = hour_angle_cosine(
        d(90.833_f64.to_radians().cos()),
        d(latitude.cos()),
        d(latitude.tan()),
        d(declination.cos()),
        d(declination.tan()),
    );
    let hour_angle = if sun_rises(cosine) {
        Some(d(f(cosine).acos().to_degrees()))
    } else {
        None
    };
    SolarEvents::around(noon, hour_angle)
}

fn generated_curve(schedule: &SolarHybridCurve, date: LocalDate) -> CircadianCurve {
    let events = solar_events(
        schedule.effective_date(date),
        schedule.coordinates,
        &schedule.time_zone,
    );
    schedule.generated_curve(events).unwrap()
}

#[test]
fn stockholm_equinox_events_are_plausible() {
    let events = solar_events(date(2026, 3, 20), stockholm(), &TimeZone::stockholm());

    assert!((5 * 60..=7 * 60).contains(&events.sunrise_minutes.unwrap()));
    assert!((11 * 60..=13 * 60).contains(&events.noon_minutes));
    assert!((17 * 60..=19 * 60).contains(&events.sunset_minutes.unwrap()));
}

#[test]
fn stockholm_solstice_events_reflect_nordic_seasons() {
    let summer = solar_events(date(2026, 6, 21), stockholm(), &TimeZone::stockholm());
    let winter = solar_events(date(2026, 12, 21), stockholm(), &TimeZone::stockholm());

    assert!((3 * 60..=5 * 60).contains(&summer.sunrise_minutes.unwrap()));
    assert!((21 * 60..=23 * 60).contains(&summer.sunset_minutes.unwrap()));
    assert!((8 * 60..=10 * 60).contains(&winter.sunrise_minutes.unwrap()));
    assert!((14 * 60..=16 * 60).contains(&winter.sunset_minutes.unwrap()));
}

#[test]
fn cross_year_winter_hold_maps_to_prior_november() {
    let hold = WinterHold::new(month_day(11, 1), month_day(1, 31), month_day(11, 1)).unwrap();

    assert_eq!(hold.effective_date(date(2026, 11, 1)), date(2026, 11, 1));
    assert_eq!(hold.effective_date(date(2026, 12, 21)), date(2026, 11, 1));
    assert_eq!(hold.effective_date(date(2027, 1, 15)), date(2026, 11, 1));
    assert_eq!(hold.effective_date(date(2027, 2, 1)), date(2027, 2, 1));
}

#[test]
fn winter_hold_rejects_reference_outside_interval() {
    assert!(WinterHold::new(month_day(11, 1), month_day(1, 31), month_day(2, 1),).is_err());
}

#[test]
fn solar_inputs_reject_invalid_coordinates_and_calendar_days() {
    for (latitude, longitude) in [
        (d(f64::NAN), d(18.1)),
        (d(91.0), d(18.1)),
        (d(-91.0), d(18.1)),
        (d(59.3), d(181.0)),
        (d(59.3), d(-181.0)),
    ] {
        assert!(Coordinates::new(latitude, longitude).is_err());
    }
    for (month, day) in [(0, 1), (13, 1), (2, 30), (4, 31), (11, 0)] {
        assert!(MonthDay::new(month, day).is_err());
    }
}

#[test]
fn polar_events_remain_explicitly_absent() {
    let events = solar_events(
        date(2026, 6, 21),
        Coordinates::new(d(90.0), d(0.0)).unwrap(),
        &TimeZone::new("UTC".to_owned()).unwrap(),
    );

    assert_eq!(events.sunrise_minutes, None);
    assert_eq!(events.sunset_minutes, None);
    assert!((0..24 * 60).contains(&events.noon_minutes));
}

#[test]
fn after_midnight_sunset_uses_late_evening_policy_bounds() {
    let schedule = SolarHybridCurve::new(
        Coordinates::new(d(65.0), d(12.0)).unwrap(),
        TimeZone::new("Europe/Oslo".to_owned()).unwrap(),
        time(7, 0),
        time(23, 0),
        Brightness::new(d(0.1)).unwrap(),
        Brightness::new(d(1.0)).unwrap(),
        Kelvin::new(d(2_200.0)).unwrap(),
        Kelvin::new(d(5_000.0)).unwrap(),
        None,
    )
    .unwrap();

    let curve = generated_curve(&schedule, date(2026, 6, 24));

    assert_eq!(curve.anchors()[3].time(), time(20, 30));
    assert_eq!(curve.anchors()[4].time(), time(21, 30));
}

#[test]
fn winter_hold_keeps_november_curve_through_january() {
    let hold = WinterHold::new(month_day(11, 1), month_day(1, 31), month_day(11, 1)).unwrap();
    let schedule = hybrid_curve(Some(hold));

    let november = generated_curve(&schedule, date(2026, 11, 1));
    let december = generated_curve(&schedule, date(2026, 12, 21));
    let january = generated_curve(&schedule, date(2027, 1, 15));
    let february = generated_curve(&schedule, date(2027, 2, 1));

    assert_eq!(november.anchors(), december.anchors());
    assert_eq!(november.anchors(), january.anchors());
    assert_ne!(november.anchors(), february.anchors());
}

#[test]
fn hybrid_curve_rises_and_falls_with_separate_color_transition() {
    let schedule = hybrid_curve(None);
    let curve = generated_curve(&schedule, date(2026, 9, 21));
    let anchors = curve.anchors();

    assert_eq!(anchors.len(), 6);
    assert!(f(anchors[2].brightness().get()) > f(anchors[1].brightness().get()));
    assert!(f(anchors[2].brightness().get()) > f(anchors[4].brightness().get()));
    assert_eq!(anchors[3].brightness(), anchors[2].brightness());
    assert!(
        f(anchors[3].color_temperature().get()) < f(anchors[2].color_temperature().get()),
        "color should begin warming before brightness falls"
    );
}

#[test]
fn hybrid_samples_stay_inside_configured_output_bounds() {
    let schedule = CircadianSchedule::SolarHybrid(hybrid_curve(None));

    let curve = hybrid_curve(None);
    let almanac = SolarAlmanac::new(vec![(
        date(2026, 6, 21),
        solar_events(date(2026, 6, 21), curve.coordinates, &curve.time_zone),
    )]);
    for minute in (0..24 * 60).step_by(5) {
        let point = schedule
            .sample(
            date(2026, 6, 21),
            TimeOfDay::from_seconds(minute * 60).unwrap(),
            &almanac,
        )
        .unwrap();
        assert!((0.1..=1.0).contains(&f(point.brightness().get())));
        assert!((2_200.0..=5_000.0).contains(&f(point.color_temperature().get())));
    }
}

#[test]
fn hybrid_curve_rejects_short_or_inverted_day_bounds() {
    let valid = hybrid_curve(None);
    assert!(
        SolarHybridCurve::new(
            stockholm(),
            TimeZone::stockholm(),
            time(7, 0),
            time(12, 0),
            Brightness::new(d(0.1)).unwrap(),
            Brightness::new(d(1.0)).unwrap(),
            Kelvin::new(d(2_200.0)).unwrap(),
            Kelvin::new(d(5_000.0)).unwrap(),
            None,
        )
        .is_err()
    );
    assert!(
        SolarHybridCurve::new(
            stockholm(),
            TimeZone::stockholm(),
            time(7, 0),
            time(23, 0),
            Brightness::new(d(1.0)).unwrap(),
            Brightness::new(d(0.1)).unwrap(),
            Kelvin::new(d(2_200.0)).unwrap(),
            Kelvin::new(d(5_000.0)).unwrap(),
            None,
        )
        .is_err()
    );
    assert!(
        SolarHybridCurve::new(
            stockholm(),
            TimeZone::stockholm(),
            time(7, 0),
            time(23, 0),
            Brightness::new(d(0.1)).unwrap(),
            Brightness::new(d(1.0)).unwrap(),
            Kelvin::new(d(5_000.0)).unwrap(),
            Kelvin::new(d(2_200.0)).unwrap(),
            None,
        )
        .is_err()
    );
    assert_eq!(generated_curve(&valid, date(2026, 9, 21)).anchors().len(), 6);
}

#[test]
fn zones_are_those_of_the_time_zone_database() {
    assert!(TimeZone::new("Europe/Stockholm".to_owned()).is_some());
    assert!(TimeZone::new("Europe/Nowhere".to_owned()).is_none());
    assert!(TimeZone::new("".to_owned()).is_none());
}

#[test]
fn noon_offsets_follow_summer_time() {
    let zone = TimeZone::stockholm();
    assert_eq!(zone.noon_offset_seconds(date(2026, 1, 15)), Some(3_600));
    assert_eq!(zone.noon_offset_seconds(date(2026, 7, 15)), Some(7_200));
    assert_eq!(zone.noon_offset_seconds(date(2026, 3, 29)), Some(7_200));
    let utc = TimeZone::new("UTC".to_owned()).unwrap();
    assert_eq!(utc.noon_offset_seconds(date(2026, 7, 15)), Some(0));
}

#[test]
fn a_hybrid_schedule_without_the_suns_events_tells_what_it_needs() {
    let hold = WinterHold::new(month_day(11, 1), month_day(1, 31), month_day(11, 1)).unwrap();
    let schedule = CircadianSchedule::SolarHybrid(hybrid_curve(Some(hold)));
    assert_eq!(schedule.needed_day(date(2027, 1, 15)), Some(date(2026, 11, 1)));
    assert_eq!(
        schedule.sample(date(2027, 1, 15), time(12, 0), &SolarAlmanac::new(Vec::new())),
        Err(ScheduleError::MissingSolarEvents)
    );
}

#[test]
fn a_hold_shows_the_same_all_winter() {
    let hold = WinterHold::new(month_day(11, 1), month_day(1, 31), month_day(11, 1)).unwrap();
    let curve = hybrid_curve(Some(hold));
    let almanac = SolarAlmanac::new(vec![(
        date(2026, 11, 1),
        solar_events(date(2026, 11, 1), curve.coordinates, &curve.time_zone),
    )]);
    let schedule = CircadianSchedule::SolarHybrid(curve);
    let december = schedule.sample(date(2026, 12, 24), time(15, 30), &almanac).unwrap();
    let january = schedule.sample(date(2027, 1, 31), time(15, 30), &almanac).unwrap();
    assert_eq!(december, january);
}

#[test]
fn polar_days_use_the_fixed_evening() {
    let curve = hybrid_curve(None)
        .generated_curve(SolarEvents {
            sunrise_minutes: None,
            noon_minutes: 720,
            sunset_minutes: None,
        })
        .unwrap();
    let times: Vec<u32> = curve.anchors().iter().map(|anchor| anchor.time().seconds()).collect();
    assert_eq!(
        times,
        vec![7 * 3_600, 8 * 3_600 + 1_800, 12 * 3_600, 20 * 3_600, 21 * 3_600 + 1_800, 23 * 3_600]
    );
}

#[test]
fn the_sun_rises_on_days_with_an_hour_angle() {
    for (cosine, expected) in [
        (-1.0, true),
        (0.2, true),
        (1.0, true),
        (1.000_001, false),
        (-1.5, false),
        (f64::NAN, false),
    ] {
        assert_eq!(sun_rises(d(cosine)), expected);
    }
}

#[test]
fn noon_is_moved_into_the_day() {
    assert_eq!(
        SolarEvents::around(d(1_500.0), Some(d(90.0))),
        SolarEvents {
            sunrise_minutes: Some(-300),
            noon_minutes: 60,
            sunset_minutes: Some(420),
        }
    );
    assert_eq!(
        SolarEvents::around(d(-30.25), None),
        SolarEvents {
            sunrise_minutes: None,
            noon_minutes: 1_410,
            sunset_minutes: None,
        }
    );
    assert_eq!(SolarEvents::around(d(1_439.75), None).noon_minutes, 0);
}

#[test]
fn every_sun_gives_ordinary_light_a_curve() {
    let schedule = hybrid_curve(None);
    for minutes in [i32::MIN, -1, 0, 720, 1_440, i32::MAX] {
        for sun in [None, Some(i32::MIN), Some(600), Some(i32::MAX)] {
            let curve = schedule
                .generated_curve(SolarEvents {
                    noon_minutes: minutes,
                    sunrise_minutes: sun,
                    sunset_minutes: sun,
                })
                .unwrap();
            assert_eq!(curve.anchors().len(), 6);
        }
    }
}

#[test]
fn light_of_no_mireds_has_no_curve() {
    let schedule = SolarHybridCurve::new(
        stockholm(),
        TimeZone::stockholm(),
        time(7, 0),
        time(23, 0),
        Brightness::new(d(0.1)).unwrap(),
        Brightness::new(d(1.0)).unwrap(),
        Kelvin::new(d(2_200.0)).unwrap(),
        Kelvin::new(d(1e300)).unwrap(),
        None,
    )
    .unwrap();
    assert!(schedule
        .generated_curve(SolarEvents {
            noon_minutes: 720,
            sunrise_minutes: Some(360),
            sunset_minutes: Some(1_080),
        })
        .is_err());
}
