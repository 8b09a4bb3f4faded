use house_automation::curve::TimeOfDay;
use house_automation::double::Double;
use house_automation::pause::Pause;
use house_automation::runtime::RuntimeInstant;
use house_automation::scheduler::{lengthen, ClockSample, LocalClock, Scheduler, WallTime};
use house_automation::solar::TimeZone;
use house_automation::state::{LocalDate, MonotonicTime};

const HOUR: i64 = 1_789_297_200;

fn d(value: f64) -> Double {
    Double::from_bits(value.to_bits())
}

fn f(value: Double) -> f64 {
    f64::from_bits(value.to_bits())
}

/// The clocks `seconds` after the hour began.
fn sample(seconds: i64) -> ClockSample {
    let unix_seconds = HOUR + seconds;
    let within = seconds.rem_euclid(3_600) as u32;
    ClockSample {
        wall: WallTime {
            unix_seconds,
            minute: within / 60,
            second: within % 60,
        },
        runtime: RuntimeInstant::new(
            LocalDate::new(2026, 9, 13).unwrap(),
            12,
            (within / 60) as u8,
            (within % 60) as u8,
            MonotonicTime::from_seconds(d(10_000.0 + seconds as f64)).unwrap(),
        )
        .unwrap(),
        unix_seconds,
    }
}

#[test]
fn ticks_fall_due_at_their_interval() {
    let mut scheduler = Scheduler::new(d(30.0)).unwrap();
    assert!(scheduler.observe(&sample(5)).curve_tick);
    assert!(!scheduler.observe(&sample(34)).curve_tick);
    assert_eq!(
        scheduler.next_tick_delay(sample(34).runtime.monotonic),
        Pause { seconds: 1, nanos: 0 }
    );
    assert!(scheduler.observe(&sample(35)).curve_tick);
    assert!(!scheduler.observe(&sample(36)).curve_tick);
    assert_eq!(
        scheduler.next_tick_delay(sample(90).runtime.monotonic),
        Pause { seconds: 0, nanos: 1_000_000 }
    );
    assert_eq!(f(lengthen(d(f64::NAN))), 0.001);
    assert_eq!(f(lengthen(d(2.5))), 2.5);
}

#[test]
fn an_hour_strikes_once_when_its_start_has_passed() {
    let mut scheduler = Scheduler::new(d(30.0)).unwrap();
    assert!(!scheduler.observe(&sample(-10)).whole_hour);
    let due = scheduler.observe(&sample(40));
    assert!(due.whole_hour);
    assert_eq!(due.whole_hour_occurrence_unix_seconds, Some(HOUR));
    assert!(!scheduler.observe(&sample(41)).whole_hour);
    assert!(!scheduler.observe(&sample(-10)).whole_hour);
    assert!(!scheduler.observe(&sample(42)).whole_hour);
    assert!(scheduler.observe(&sample(3_600)).whole_hour);
}

#[test]
fn a_scheduler_that_starts_on_the_hour_strikes_it() {
    let mut scheduler = Scheduler::new(d(30.0)).unwrap();
    assert!(scheduler.observe_wall(sample(0).wall).whole_hour);
    let mut late = Scheduler::new(d(30.0)).unwrap();
    assert!(!late.observe_wall(sample(1).wall).whole_hour);
}

#[test]
fn intervals_are_positive_and_finite() {
    for wrong in [0.0, -1.0, f64::NAN, f64::INFINITY] {
        let error = Scheduler::new(d(wrong)).unwrap_err();
        assert_eq!(
            error.message(),
            "scheduler interval must be finite and positive"
        );
    }
}

#[test]
fn the_next_wall_event_is_the_hour_or_the_reset() {
    let scheduler = Scheduler::new(d(30.0)).unwrap();
    let at = |hour, minute| TimeOfDay::from_hms(hour, minute, 0).unwrap();
    assert_eq!(
        scheduler.next_wall_event_delay(&sample(60), at(4, 0)),
        Pause { seconds: 3_540, nanos: 0 }
    );
    assert_eq!(
        scheduler.next_wall_event_delay(&sample(60), at(12, 2)),
        Pause { seconds: 60, nanos: 0 }
    );
    assert_eq!(
        scheduler.next_wall_event_delay(&sample(0), at(12, 0)),
        Pause { seconds: 3_600, nanos: 0 }
    );
}

#[test]
fn samples_show_the_local_time_of_a_zone() {
    let monotonic = MonotonicTime::from_seconds(d(3.5)).unwrap();
    let summer = ClockSample::at(&TimeZone::stockholm(), 1_789_297_323, monotonic).unwrap();
    assert_eq!(summer.unix_seconds, 1_789_297_323);
    assert_eq!(
        summer.wall,
        WallTime {
            unix_seconds: 1_789_297_323,
            minute: 2,
            second: 3,
        }
    );
    assert_eq!(
        summer.runtime,
        RuntimeInstant::new(LocalDate::new(2026, 9, 13).unwrap(), 13, 2, 3, monotonic).unwrap()
    );
    let winter = ClockSample::at(&TimeZone::stockholm(), 1_767_225_599, monotonic).unwrap();
    assert_eq!(
        winter.runtime,
        RuntimeInstant::new(LocalDate::new(2026, 1, 1).unwrap(), 0, 59, 59, monotonic).unwrap()
    );
    let half_hour = TimeZone::new("Asia/Kolkata".to_owned()).unwrap();
    assert_eq!(
        ClockSample::at(&half_hour, 0, monotonic).unwrap().runtime.local_time,
        TimeOfDay::from_hms(5, 30, 0).unwrap()
    );
    assert_eq!(ClockSample::at(&TimeZone::stockholm(), i64::MAX, monotonic), None);
    assert_eq!(
        ClockSample::at(&TimeZone { name: "Europe/Atlantis".to_owned() }, 0, monotonic),
        None
    );
}

#[test]
fn samples_need_a_real_local_time() {
    let monotonic = MonotonicTime::from_seconds(d(0.0)).unwrap();
    let clock = LocalClock { year: 2026, month: 2, day: 28, hour: 23, minute: 59, second: 59 };
    assert!(ClockSample::new(clock, 0, monotonic).is_some());
    for wrong in [
        LocalClock { month: 13, ..clock },
        LocalClock { month: 258, ..clock },
        LocalClock { day: 29, ..clock },
        LocalClock { hour: 24, ..clock },
        LocalClock { minute: 60, ..clock },
        LocalClock { second: 60, ..clock },
    ] {
        assert_eq!(ClockSample::new(wrong, 0, monotonic), None);
    }
    assert_eq!(ClockSample::new(clock, i64::MIN, monotonic), None);
}

#[test]
fn pauses_are_rounded_to_whole_nanoseconds() {
    for (seconds, whole, nanos) in [
        (0.0, 0, 0),
        (-0.0, 0, 0),
        (1e-20, 0, 0),
        (4.2e-7, 0, 420),
        (0.999e-9, 0, 1),
        (2.7, 2, 700_000_000),
        (3e10, 30_000_000_000, 0),
        // Halves of a nanosecond go to the even number.
        (f64::from_bits(0x3f50_0000_0000_0000), 0, 976_562),
        (f64::from_bits(0x3f68_0000_0000_0000), 0, 2_929_688),
        (f64::from_bits(0x3ff0_0400_0000_0000), 1, 976_562),
        (0.999_999_999_9, 1, 0),
        (18_446_744_073_709_549_568.0, 18_446_744_073_709_549_568, 0),
    ] {
        let pause = Pause::from_seconds(d(seconds));
        assert_eq!(pause, Pause { seconds: whole, nanos });
        let length = std::time::Duration::from_secs_f64(seconds);
        assert_eq!((length.as_secs(), length.subsec_nanos()), (whole, nanos));
        assert_eq!(f(pause.as_seconds()), length.as_secs_f64());
    }
    for seconds in [-1e-300, f64::NAN, f64::INFINITY, 18_446_744_073_709_551_616.0] {
        assert!(!Pause::can_hold(d(seconds)));
    }
    let mut scheduler = Scheduler::new(d(1e300)).unwrap();
    assert!(scheduler.can_wait(sample(0).runtime.monotonic));
    scheduler.observe(&sample(0));
    assert!(!scheduler.can_wait(sample(0).runtime.monotonic));
    let mut odd = Scheduler::new(d(0.1)).unwrap();
    odd.observe(&sample(0));
    assert_eq!(
        odd.next_tick_delay(sample(0).runtime.monotonic),
        Pause { seconds: 0, nanos: 100_000_000 }
    );
}
