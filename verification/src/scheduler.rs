//! When the curves tick and the hours strike.
use crate::curve::TimeOfDay;
use crate::double::Double;
use crate::pause::Pause;
use crate::runtime::RuntimeInstant;
use crate::solar::TimeZone;
use crate::state::{LocalDate, MonotonicTime};
use vstd::prelude::*;

verus! {

/// Bits of `0.001`: the shortest pause in seconds.
pub const SHORTEST_PAUSE: u64 = 0x3f50_624d_d2f1_a9fc;

/// A moment by the wall clock: seconds since the epoch, and how far into the local
/// hour it lies.
#[derive(Debug, Clone, Copy, PartialEq, Eq)]
pub struct WallTime {
    pub unix_seconds: i64,
    pub minute: u32,
    pub second: u32,
}

impl WallTime {
    pub open spec fn wf(self) -> bool {
        &&& self.minute < 60
        &&& self.second < 60
        &&& i64::MIN <= self.hour_start()
    }

    /// The start of the hour that the moment lies in. It is counted back within
    /// this hour, so that an hour which occurs twice has two starts.
    pub open spec fn hour_start(self) -> int {
        self.unix_seconds - (self.minute * 60 + self.second)
    }
}

/// What the clocks show.
#[derive(Debug, Clone, Copy, PartialEq)]
pub struct ClockSample {
    pub wall: WallTime,
    pub runtime: RuntimeInstant,
    pub unix_seconds: i64,
}

/// Date and time of day by the clocks of a zone.
#[derive(Debug, Clone, Copy, PartialEq, Eq)]
pub struct LocalClock {
    pub year: i32,
    pub month: u32,
    pub day: u32,
    pub hour: u32,
    pub minute: u32,
    pub second: u32,
}

/// What a zone's clocks show a number of seconds after the epoch; none where there
/// is no such zone or the date is out of range.
pub uninterp spec fn zone_clock(name: Seq<char>, unix_seconds: i64) -> Option<LocalClock>;

/// Calls `chrono::DateTime::with_timezone` for a `chrono_tz` zone and reads the date
/// and the time of day off the result. They follow from the zone's name and the
/// moment alone, by the compiled time-zone database.
#[verifier::external_body]
fn local_clock(name: &str, unix_seconds: i64) -> (clock: Option<LocalClock>)
    ensures
        clock == zone_clock(name@, unix_seconds),
{
    let zone: chrono_tz::Tz = name.parse().ok()?;
    let wall = chrono::DateTime::from_timestamp(unix_seconds, 0)?.with_timezone(&zone);
    Some(LocalClock {
        year: chrono::Datelike::year(&wall),
        month: chrono::Datelike::month(&wall),
        day: chrono::Datelike::day(&wall),
        hour: chrono::Timelike::hour(&wall),
        minute: chrono::Timelike::minute(&wall),
        second: chrono::Timelike::second(&wall),
    })
}

impl LocalClock {
    /// A day of the calendar and a time of that day.
    pub open spec fn wf(self) -> bool {
        &&& self.month < 256
        &&& self.day < 256
        &&& self.date().wf()
        &&& self.hour < 24
        &&& self.minute < 60
        &&& self.second < 60
    }

    pub open spec fn date(self) -> LocalDate {
        LocalDate { year: self.year, month: self.month as u8, day: self.day as u8 }
    }
}

impl ClockSample {
    pub open spec fn wf(self) -> bool {
        self.wall.wf() && self.runtime.wf()
    }

    /// The sample with a given local time; none where that is no time, or where its
    /// hour began before the first moment there is.
    pub open spec fn taken(clock: LocalClock, unix_seconds: i64, monotonic: MonotonicTime) -> Option<
        ClockSample,
    > {
        let wall = WallTime { unix_seconds, minute: clock.minute, second: clock.second };
        if clock.wf() && wall.wf() {
            Some(
                ClockSample {
                    wall,
                    runtime: RuntimeInstant {
                        local_date: clock.date(),
                        local_time: TimeOfDay {
                            seconds: (clock.hour * 3600 + clock.minute * 60
                                + clock.second) as u32,
                        },
                        monotonic,
                    },
                    unix_seconds,
                },
            )
        } else {
            None
        }
    }

    pub fn new(clock: LocalClock, unix_seconds: i64, monotonic: MonotonicTime) -> (result: Option<
        Self,
    >)
        ensures
            result == ClockSample::taken(clock, unix_seconds, monotonic),
            monotonic.wf() ==> (result matches Some(sample) ==> sample.wf()),
    {
        if clock.month > 255 || clock.day > 255 || clock.hour >= 24 || clock.minute >= 60
            || clock.second >= 60 {
            return None;
        }
        let into_hour: i64 = clock.minute as i64 * 60 + clock.second as i64;
        if unix_seconds < i64::MIN + into_hour {
            return None;
        }
        let local_date = match LocalDate::new(clock.year, clock.month as u8, clock.day as u8) {
            Ok(date) => date,
            Err(_) => return None,
        };
        match RuntimeInstant::new(
            local_date,
            clock.hour as u8,
            clock.minute as u8,
            clock.second as u8,
            monotonic,
        ) {
            Ok(runtime) => Some(
                ClockSample {
                    wall: WallTime { unix_seconds, minute: clock.minute, second: clock.second },
                    runtime,
                    unix_seconds,
                },
            ),
            Err(_) => None,
        }
    }

    /// The sample in a time zone.
    pub fn at(zone: &TimeZone, unix_seconds: i64, monotonic: MonotonicTime) -> (result: Option<
        Self,
    >)
        ensures
            result == match zone_clock(zone.name@, unix_seconds) {
                Some(clock) => ClockSample::taken(clock, unix_seconds, monotonic),
                None => None,
            },
            monotonic.wf() ==> (result matches Some(sample) ==> sample.wf()),
    {
        match local_clock(zone.name.as_str(), unix_seconds) {
            Some(clock) => ClockSample::new(clock, unix_seconds, monotonic),
            None => None,
        }
    }
}

/// What has fallen due.
#[derive(Debug, Clone, Copy, Default, PartialEq, Eq)]
pub struct SchedulerDue {
    pub curve_tick: bool,
    pub whole_hour: bool,
    pub whole_hour_occurrence_unix_seconds: Option<i64>,
}

#[derive(Debug, Clone, Copy, PartialEq, Eq)]
pub struct SchedulerError;

impl SchedulerError {
    pub fn message(self) -> (text: &'static str)
        ensures
            text@ == "scheduler interval must be finite and positive"@,
    {
        "scheduler interval must be finite and positive"
    }
}

#[derive(Debug, Clone, Copy, PartialEq)]
pub struct Scheduler {
    pub tick_seconds: Double,
    pub next_tick: Option<Double>,
    pub previous_wall_unix_seconds: Option<i64>,
    pub last_whole_hour_occurrence: Option<i64>,
}

/// The larger of a number and the shortest pause.
pub open spec fn at_least_a_moment(seconds: Double) -> Double {
    if (Double { bits: SHORTEST_PAUSE }).at_most(seconds) {
        seconds
    } else {
        Double { bits: SHORTEST_PAUSE }
    }
}

pub fn lengthen(seconds: Double) -> (pause: Double)
    ensures
        pause == at_least_a_moment(seconds),
{
    let shortest = Double::from_bits(SHORTEST_PAUSE);
    if shortest.le(seconds) {
        seconds
    } else {
        shortest
    }
}

impl Scheduler {
    pub fn new(tick_seconds: Double) -> (result: Result<Self, SchedulerError>)
        ensures
            if tick_seconds.finite() && (Double { bits: 0 }).less(tick_seconds) {
                result == Ok::<Scheduler, SchedulerError>(
                    Scheduler {
                        tick_seconds,
                        next_tick: None,
                        previous_wall_unix_seconds: None,
                        last_whole_hour_occurrence: None,
                    },
                )
            } else {
                result is Err
            },
    {
        if !tick_seconds.is_finite() || tick_seconds.le(Double::from_bits(0)) {
            return Err(SchedulerError);
        }
        Ok(
            Scheduler {
                tick_seconds,
                next_tick: None,
                previous_wall_unix_seconds: None,
                last_whole_hour_occurrence: None,
            },
        )
    }

    /// The hour that strikes at `now`: one whose start lies between the moment
    /// looked at before and `now`, and that has not struck.
    pub open spec fn strike(self, now: WallTime) -> Option<int> {
        let crossed = match self.previous_wall_unix_seconds {
            None => now.minute == 0 && now.second == 0,
            Some(previous) => previous <= now.unix_seconds && previous < now.hour_start(),
        };
        if crossed && !(self.last_whole_hour_occurrence matches Some(last) && last
            == now.hour_start()) {
            Some(now.hour_start())
        } else {
            None
        }
    }

    /// The scheduler once `now` has been looked at.
    pub open spec fn walled(self, now: WallTime) -> Scheduler {
        Scheduler {
            previous_wall_unix_seconds: Some(now.unix_seconds),
            last_whole_hour_occurrence: match self.strike(now) {
                Some(start) => Some(start as i64),
                None => self.last_whole_hour_occurrence,
            },
            ..self
        }
    }

    /// A curve tick is due.
    pub open spec fn ticks(self, now: MonotonicTime) -> bool {
        match self.next_tick {
            None => true,
            Some(deadline) => deadline.at_most(now.value),
        }
    }

    /// What looking at the clocks leads to.
    pub open spec fn observed(self, sample: ClockSample, after: Scheduler, due: SchedulerDue) -> bool {
        &&& after == (Scheduler {
            next_tick: if self.ticks(sample.runtime.monotonic) {
                Some(sample.runtime.monotonic.value.sum(self.tick_seconds))
            } else {
                self.next_tick
            },
            ..self.walled(sample.wall)
        })
        &&& due.curve_tick == self.ticks(sample.runtime.monotonic)
        &&& due.whole_hour == (self.strike(sample.wall) is Some)
        &&& match self.strike(sample.wall) {
            Some(start) => due.whole_hour_occurrence_unix_seconds matches Some(occurrence)
                && occurrence == start,
            None => due.whole_hour_occurrence_unix_seconds is None,
        }
    }

    pub fn observe_wall(&mut self, now: WallTime) -> (due: SchedulerDue)
        requires
            now.wf(),
        ensures
            *final(self) == old(self).walled(now),
            !due.curve_tick,
            due.whole_hour == (old(self).strike(now) is Some),
            match old(self).strike(now) {
                Some(start) => due.whole_hour_occurrence_unix_seconds matches Some(occurrence)
                    && occurrence == start,
                None => due.whole_hour_occurrence_unix_seconds is None,
            },
    {
        let boundary: i64 = now.unix_seconds - (now.minute * 60 + now.second) as i64;
        let crossed = match self.previous_wall_unix_seconds {
            None => now.minute == 0 && now.second == 0,
            Some(previous) => now.unix_seconds >= previous && boundary > previous,
        };
        self.previous_wall_unix_seconds = Some(now.unix_seconds);
        let repeated = match self.last_whole_hour_occurrence {
            Some(last) => last == boundary,
            None => false,
        };
        let strikes = crossed && !repeated;
        if strikes {
            self.last_whole_hour_occurrence = Some(boundary);
        }
        SchedulerDue {
            curve_tick: false,
            whole_hour: strikes,
            whole_hour_occurrence_unix_seconds: if strikes {
                Some(boundary)
            } else {
                None
            },
        }
    }

    /// Looks at the clocks and tells what has fallen due.
    pub fn observe(&mut self, sample: &ClockSample) -> (due: SchedulerDue)
        requires
            sample.wall.wf(),
        ensures
            old(self).observed(*sample, *final(self), due),
    {
        let mut due = self.observe_wall(sample.wall);
        let seconds = sample.runtime.monotonic.as_seconds();
        let ticks = match self.next_tick {
            None => true,
            Some(deadline) => deadline.le(seconds),
        };
        if ticks {
            due.curve_tick = true;
            self.next_tick = Some(seconds.plus(self.tick_seconds));
        }
        due
    }

    /// Seconds until the next curve tick.
    pub open spec fn until_tick(self, now: MonotonicTime) -> Double {
        match self.next_tick {
            Some(deadline) => at_least_a_moment(deadline.difference(now.value)),
            None => Double { bits: SHORTEST_PAUSE },
        }
    }

    fn seconds_until_tick(&self, now: MonotonicTime) -> (seconds: Double)
        ensures
            seconds == self.until_tick(now),
    {
        match self.next_tick {
            Some(deadline) => lengthen(deadline.minus(now.as_seconds())),
            None => Double::from_bits(SHORTEST_PAUSE),
        }
    }

    /// The next tick is near enough to be waited for.
    pub fn can_wait(&self, now: MonotonicTime) -> (result: bool)
        ensures
            result == Pause::holds(self.until_tick(now)),
    {
        Pause::can_hold(self.seconds_until_tick(now))
    }

    /// How long it is to the next curve tick, in whole nanoseconds.
    pub fn next_tick_delay(&self, now: MonotonicTime) -> (delay: Pause)
        requires
            Pause::holds(self.until_tick(now)),
        ensures
            delay == Pause::of(self.until_tick(now)),
            Pause::nanos_of(self.until_tick(now)) == delay.seconds
                * crate::pause::NANOS_PER_SECOND + delay.nanos,
            delay.wf(),
    {
        Pause::from_seconds(self.seconds_until_tick(now))
    }

    /// Seconds until the next whole hour.
    pub open spec fn until_hour(current: int) -> int {
        3_600 - current % 3_600
    }

    /// Seconds until it is next `reset` o'clock.
    pub open spec fn until_reset(current: int, reset: int) -> int {
        if reset > current {
            reset - current
        } else {
            86_400 - current + reset
        }
    }

    /// Seconds until the wall clock next matters.
    pub open spec fn until_wall_event(time: TimeOfDay, reset_time: TimeOfDay) -> int {
        let current = time.seconds as int;
        let hour = Scheduler::until_hour(current);
        let reset = Scheduler::until_reset(current, reset_time.seconds as int);
        if hour < reset {
            hour
        } else {
            reset
        }
    }

    pub fn next_wall_event_delay(&self, sample: &ClockSample, reset_time: TimeOfDay) -> (delay: Pause)
        requires
            sample.runtime.local_time.wf(),
            reset_time.wf(),
        ensures
            delay.seconds == Scheduler::until_wall_event(sample.runtime.local_time, reset_time),
            delay.nanos == 0,
            1 <= delay.seconds <= 3_600,
    {
        let current: u32 = sample.runtime.local_time.seconds();
        let next_hour: u32 = 3_600 - current % 3_600;
        let reset: u32 = reset_time.seconds();
        let until_reset: u32 = if reset > current {
            reset - current
        } else {
            86_400 - current + reset
        };
        Pause::from_whole_seconds(
            if next_hour < until_reset {
                next_hour as u64
            } else {
                until_reset as u64
            },
        )
    }

    /// An hour that has struck does not strike again while it lasts.
    pub proof fn hour_strikes_once(self, a: WallTime, b: WallTime)
        requires
            a.wf(),
            b.wf(),
            self.strike(a) is Some,
            b.hour_start() == a.hour_start(),
        ensures
            self.walled(a).strike(b) is None,
    {
    }

    /// A clock that is set back strikes no hour.
    pub proof fn backward_steps_are_silent(self, a: WallTime, b: WallTime)
        requires
            a.wf(),
            b.wf(),
            b.unix_seconds < a.unix_seconds,
        ensures
            self.walled(a).strike(b) is None,
    {
    }

    /// However late the clock is looked at within an hour, the hour strikes.
    pub proof fn passed_hours_strike(self, a: WallTime, b: WallTime)
        requires
            a.wf(),
            b.wf(),
            a.unix_seconds < b.hour_start(),
            !(self.walled(a).last_whole_hour_occurrence matches Some(last) && last
                == b.hour_start()),
        ensures
            self.walled(a).strike(b) == Some(b.hour_start()),
    {
    }
}

} // verus!
