//! Schedules that follow the sun: coordinates, winter holds and the daily curve
//! that a day's sunrise, noon and sunset give.
use crate::curve::{CircadianCurve, CurveAnchor, CurveError, CurvePoint, TimeOfDay};
use crate::double::Double;
use crate::state::LocalDate;
use crate::value::{Brightness, Kelvin, MIRED_SCALE};
use vstd::prelude::*;

verus! {

pub const MINIMUM_AWAKE_SECONDS: u32 = 28_800;

pub const MINUTES_PER_DAY: i64 = 1_440;

/// The hour at which a zone's offset is read.
pub const NOON_HOUR: u8 = 12;

/// Bits of `90.0`.
pub const QUARTER_TURN: u64 = 0x4056_8000_0000_0000;

/// Bits of `180.0`.
pub const HALF_TURN: u64 = 0x4066_8000_0000_0000;

/// Bits of `1.0`.
pub const ONE: u64 = 0x3ff0_0000_0000_0000;

/// Bits of `0.72`.
pub const MORNING_BRIGHTNESS: u64 = 0x3fe7_0a3d_70a3_d70a;

/// Bits of `0.65`.
pub const MORNING_COLOR: u64 = 0x3fe4_cccc_cccc_cccd;

/// Bits of `0.55`.
pub const EVENING_COLOR: u64 = 0x3fe1_9999_9999_999a;

/// Bits of `0.60`.
pub const DUSK_BRIGHTNESS: u64 = 0x3fe3_3333_3333_3333;

/// Bits of `0.25`.
pub const DUSK_COLOR: u64 = 0x3fd0_0000_0000_0000;

#[derive(Debug, Clone, Copy, PartialEq, Eq)]
pub enum SolarError {
    InvalidCoordinates,
    InvalidMonthDay,
    ReferenceOutsideHold,
    InvalidSchedule,
}

impl SolarError {
    /// The error in words.
    pub open spec fn described(self) -> Seq<char> {
        match self {
            SolarError::InvalidCoordinates =>
                "coordinates must be finite latitude/longitude values"@,
            SolarError::InvalidMonthDay => "month-day must be a valid MM-DD value"@,
            SolarError::ReferenceOutsideHold => "winter reference must fall inside hold interval"@,
            SolarError::InvalidSchedule =>
                "solar curve needs an eight-hour wake/bed window and increasing day bounds"@,
        }
    }

    pub fn message(&self) -> (text: &'static str)
        ensures
            text@ == self.described(),
    {
        match self {
            SolarError::InvalidCoordinates =>
                "coordinates must be finite latitude/longitude values",
            SolarError::InvalidMonthDay => "month-day must be a valid MM-DD value",
            SolarError::ReferenceOutsideHold => "winter reference must fall inside hold interval",
            SolarError::InvalidSchedule =>
                "solar curve needs an eight-hour wake/bed window and increasing day bounds",
        }
    }
}

/// Degrees north and east.
#[derive(Debug, Clone, Copy, PartialEq)]
pub struct Coordinates {
    pub latitude: Double,
    pub longitude: Double,
}

/// A finite number whose magnitude does not exceed `limit`.
pub open spec fn within(value: Double, limit: Double) -> bool {
    value.finite() && limit.negated().at_most(value) && value.at_most(limit)
}

fn is_within(value: Double, limit: Double) -> (result: bool)
    ensures
        result == within(value, limit),
{
    value.is_finite() && limit.neg().le(value) && value.le(limit)
}

impl Coordinates {
    pub open spec fn wf(self) -> bool {
        within(self.latitude, Double { bits: QUARTER_TURN }) && within(
            self.longitude,
            Double { bits: HALF_TURN },
        )
    }

    pub fn new(latitude: Double, longitude: Double) -> (result: Result<Self, SolarError>)
        ensures
            result == if (Coordinates { latitude, longitude }).wf() {
                Ok::<Coordinates, SolarError>(Coordinates { latitude, longitude })
            } else {
                Err(SolarError::InvalidCoordinates)
            },
    {
        if is_within(latitude, Double::from_bits(QUARTER_TURN)) && is_within(
            longitude,
            Double::from_bits(HALF_TURN),
        ) {
            Ok(Coordinates { latitude, longitude })
        } else {
            Err(SolarError::InvalidCoordinates)
        }
    }
}

/// Whether the time-zone database has a zone of this name.
pub uninterp spec fn zone_exists(name: Seq<char>) -> bool;

/// Seconds that a zone's clocks are ahead of UTC at a full hour of a local date;
/// none where the date is out of range or the hour occurs twice or never.
pub uninterp spec fn zone_offset(
    name: Seq<char>,
    year: int,
    month: int,
    day: int,
    hour: int,
) -> Option<i32>;

/// Calls `chrono_tz::Tz::from_str`, which succeeds for the names that its
/// compiled time-zone database holds.
#[verifier::external_body]
fn is_known_zone(name: &str) -> (known: bool)
    ensures
        known == zone_exists(name@),
{
    name.parse::<chrono_tz::Tz>().is_ok()
}

/// Calls `chrono::TimeZone::offset_from_local_datetime` of a `chrono_tz` zone and
/// keeps a single answer. What it gives follows from the zone's name and the
/// local date and hour alone, by the compiled time-zone database.
#[verifier::external_body]
fn local_offset(name: &str, date: LocalDate, hour: u8) -> (offset: Option<i32>)
    ensures
        offset == zone_offset(
            name@,
            date.year as int,
            date.month as int,
            date.day as int,
            hour as int,
        ),
{
    let zone: chrono_tz::Tz = name.parse().ok()?;
    let day = chrono::NaiveDate::from_ymd_opt(date.year, date.month.into(), date.day.into())?;
    let moment = day.and_hms_opt(hour.into(), 0, 0)?;
    let offset = chrono::TimeZone::offset_from_local_datetime(&zone, &moment).single()?;
    Some(chrono::Offset::fix(&offset).local_minus_utc())
}

/// A named time zone.
#[derive(Debug, PartialEq, Eq)]
pub struct TimeZone {
    pub name: String,
}

impl TimeZone {
    pub fn new(name: String) -> (result: Option<Self>)
        ensures
            result == if zone_exists(name@) {
                Some(TimeZone { name })
            } else {
                None
            },
    {
        if is_known_zone(name.as_str()) {
            Some(TimeZone { name })
        } else {
            None
        }
    }

    /// Where no location is configured.
    pub fn stockholm() -> (result: Self)
        ensures
            result.name@ == "Europe/Stockholm"@,
    {
        TimeZone { name: String::from_str("Europe/Stockholm") }
    }

    /// Seconds that the zone is ahead of UTC at noon of a local date.
    pub fn noon_offset_seconds(&self, date: LocalDate) -> (offset: Option<i32>)
        ensures
            offset == zone_offset(
                self.name@,
                date.year as int,
                date.month as int,
                date.day as int,
                NOON_HOUR as int,
            ),
    {
        local_offset(self.name.as_str(), date, NOON_HOUR)
    }
}

impl Clone for TimeZone {
    fn clone(&self) -> (result: Self)
        ensures
            result == *self,
    {
        TimeZone { name: self.name.clone() }
    }
}

/// A day of the year, in any year.
#[derive(Debug, Clone, Copy, PartialEq, Eq, PartialOrd, Ord)]
pub struct MonthDay {
    pub month: u8,
    pub day: u8,
}

impl MonthDay {
    /// A day of a leap year.
    pub open spec fn wf(self) -> bool {
        (LocalDate { year: 2000, month: self.month, day: self.day }).wf()
    }

    /// `self` does not come after `other` in the year.
    pub open spec fn not_after(self, other: MonthDay) -> bool {
        self.month < other.month || (self.month == other.month && self.day <= other.day)
    }

    pub open spec fn of(date: LocalDate) -> MonthDay {
        MonthDay { month: date.month, day: date.day }
    }

    /// The day in `year`; the day before it where the year lacks it.
    pub open spec fn dated(self, year: i32) -> Option<LocalDate> {
        let exact = LocalDate { year, month: self.month, day: self.day };
        let before = LocalDate {
            year,
            month: self.month,
            day: if self.day > 0 {
                (self.day - 1) as u8
            } else {
                0
            },
        };
        if exact.wf() {
            Some(exact)
        } else if before.wf() {
            Some(before)
        } else {
            None
        }
    }

    pub fn new(month: u8, day: u8) -> (result: Result<Self, SolarError>)
        ensures
            result == if (MonthDay { month, day }).wf() {
                Ok::<MonthDay, SolarError>(MonthDay { month, day })
            } else {
                Err(SolarError::InvalidMonthDay)
            },
    {
        match LocalDate::new(2000, month, day) {
            Ok(_) => Ok(MonthDay { month, day }),
            Err(_) => Err(SolarError::InvalidMonthDay),
        }
    }

    fn from_date(date: LocalDate) -> (result: Self)
        ensures
            result == MonthDay::of(date),
    {
        MonthDay { month: date.month(), day: date.day() }
    }

    fn in_year(self, year: i32) -> (result: Option<LocalDate>)
        ensures
            result == self.dated(year),
    {
        match LocalDate::new(year, self.month, self.day) {
            Ok(date) => Some(date),
            Err(_) => {
                let before: u8 = if self.day > 0 {
                    self.day - 1
                } else {
                    0
                };
                match LocalDate::new(year, self.month, before) {
                    Ok(date) => Some(date),
                    Err(_) => None,
                }
            },
        }
    }

    fn is_not_after(self, other: MonthDay) -> (result: bool)
        ensures
            result == self.not_after(other),
    {
        self.month < other.month || (self.month == other.month && self.day <= other.day)
    }
}

/// Part of the year in which the curve of one reference day is kept.
#[derive(Debug, Clone, Copy, PartialEq, Eq)]
pub struct WinterHold {
    pub start: MonthDay,
    pub end: MonthDay,
    pub reference: MonthDay,
}

impl WinterHold {
    /// The hold runs over the turn of the year.
    pub open spec fn crosses_year(self) -> bool {
        !self.start.not_after(self.end)
    }

    pub open spec fn covers(self, value: MonthDay) -> bool {
        if self.crosses_year() {
            self.start.not_after(value) || value.not_after(self.end)
        } else {
            self.start.not_after(value) && value.not_after(self.end)
        }
    }

    /// Year in which the hold began that covers `date`.
    pub open spec fn start_year(self, date: LocalDate) -> int {
        if self.crosses_year() && MonthDay::of(date).not_after(self.end) {
            date.year - 1
        } else {
            date.year as int
        }
    }

    /// Year of the reference day of the hold that covers `date`.
    pub open spec fn reference_year(self, date: LocalDate) -> int {
        if self.crosses_year() && self.reference.not_after(self.end) {
            self.start_year(date) + 1
        } else {
            self.start_year(date)
        }
    }

    /// The day whose sun is followed on `date`.
    pub open spec fn mapped(self, date: LocalDate) -> LocalDate {
        if !self.covers(MonthDay::of(date)) || self.start_year(date) < i32::MIN
            || self.reference_year(date) > i32::MAX {
            date
        } else {
            match self.reference.dated(self.reference_year(date) as i32) {
                Some(day) => day,
                None => date,
            }
        }
    }

    pub fn new(start: MonthDay, end: MonthDay, reference: MonthDay) -> (result: Result<
        Self,
        SolarError,
    >)
        ensures
            result == if (WinterHold { start, end, reference }).covers(reference) {
                Ok::<WinterHold, SolarError>(WinterHold { start, end, reference })
            } else {
                Err(SolarError::ReferenceOutsideHold)
            },
    {
        let hold = WinterHold { start, end, reference };
        if !hold.contains(reference) {
            return Err(SolarError::ReferenceOutsideHold);
        }
        Ok(hold)
    }

    pub fn effective_date(self, date: LocalDate) -> (result: LocalDate)
        ensures
            result == self.mapped(date),
            date.wf() ==> result.wf(),
    {
        let month_day = MonthDay::from_date(date);
        if !self.contains(month_day) {
            return date;
        }
        let crosses_year = !self.start.is_not_after(self.end);
        let start_year: i32 = if crosses_year && month_day.is_not_after(self.end) {
            if date.year == i32::MIN {
                return date;
            }
            date.year - 1
        } else {
            date.year
        };
        let reference_year: i32 = if crosses_year && self.reference.is_not_after(self.end) {
            if start_year == i32::MAX {
                return date;
            }
            start_year + 1
        } else {
            start_year
        };
        match self.reference.in_year(reference_year) {
            Some(day) => day,
            None => date,
        }
    }

    fn contains(self, value: MonthDay) -> (result: bool)
        ensures
            result == self.covers(value),
    {
        if self.start.is_not_after(self.end) {
            self.start.is_not_after(value) && value.is_not_after(self.end)
        } else {
            self.start.is_not_after(value) || value.is_not_after(self.end)
        }
    }

    /// Every day of one hold follows the sun of the same day, and that day is the
    /// reference day wherever its year has one.
    pub proof fn holds_one_day(self, a: LocalDate, b: LocalDate)
        requires
            self.reference.wf(),
            self.covers(MonthDay::of(a)),
            self.covers(MonthDay::of(b)),
            self.start_year(a) == self.start_year(b),
            i32::MIN <= self.start_year(a),
            self.reference_year(a) <= i32::MAX,
        ensures
            self.mapped(a) == self.mapped(b),
            self.mapped(a).year == self.reference_year(a),
            self.mapped(a).month == self.reference.month,
            self.mapped(a).day == self.reference.day || (self.reference.month == 2
                && self.reference.day == 29 && self.mapped(a).day == 28),
    {
    }

    /// Days outside the hold keep their own sun.
    pub proof fn other_days_are_kept(self, date: LocalDate)
        requires
            !self.covers(MonthDay::of(date)),
        ensures
            self.mapped(date) == date,
    {
    }
}

/// Days of `year` before the first of `month`.
pub open spec fn days_before(year: int, month: int) -> int
    decreases month,
{
    if month <= 1 {
        0
    } else {
        days_before(year, month - 1) + crate::state::month_length(year, month - 1)
    }
}

/// Number of the day in its year, from one.
pub open spec fn ordinal(date: LocalDate) -> int {
    days_before(date.year as int, date.month as int) + date.day
}

fn day_of_year(date: LocalDate) -> (result: u32)
    requires
        date.wf(),
    ensures
        result == ordinal(date),
        1 <= result <= 366,
{
    let february: u32 = match LocalDate::new(date.year, 2, 29) {
        Ok(_) => 29,
        Err(_) => 28,
    };
    proof {
        reveal_with_fuel(days_before, 13);
    }
    let before: u32 = match date.month {
        1 => 0,
        2 => 31,
        3 => 31 + february,
        4 => 62 + february,
        5 => 92 + february,
        6 => 123 + february,
        7 => 153 + february,
        8 => 184 + february,
        9 => 215 + february,
        10 => 245 + february,
        11 => 276 + february,
        _ => 306 + february,
    };
    before + date.day as u32
}

/// Bits of a year's angle per day, in radians.
pub const DAILY_ANGLE: u64 = 0x3f91_a099_d4b3_ac9a;

/// Angle of the year on `date`, in radians: zero on the first of January.
pub open spec fn angle_on(date: LocalDate) -> Double {
    (Double { bits: DAILY_ANGLE }).product(
        Double::of_nat(ordinal(date) as nat).difference(Double { bits: ONE }),
    )
}

pub fn year_angle(date: LocalDate) -> (angle: Double)
    requires
        date.wf(),
    ensures
        angle == angle_on(date),
{
    let day: u32 = day_of_year(date);
    Double::from_bits(DAILY_ANGLE).times(
        Double::from_u64(day as u64).minus(Double::from_bits(ONE)),
    )
}

/// Cosines and sines of the year's angle and of its double and triple.
#[derive(Debug, Clone, Copy, PartialEq)]
pub struct SeasonAngles {
    pub cosine: Double,
    pub sine: Double,
    pub double_cosine: Double,
    pub double_sine: Double,
    pub triple_cosine: Double,
    pub triple_sine: Double,
}

/// Bits of the terms of the equation of time: `229.18`, `0.000075`, `0.001868`,
/// `0.032077`, `0.014615` and `0.040849`.
pub const TIME_SCALE: u64 = 0x406c_a5c2_8f5c_28f6;

pub const TIME_CONSTANT: u64 = 0x3f13_a92a_3055_3261;

pub const TIME_COSINE: u64 = 0x3f5e_9af5_ba2b_e059;

pub const TIME_SINE: u64 = 0x3fa0_6c65_83e8_576d;

pub const TIME_DOUBLE_COSINE: u64 = 0x3f8d_ee78_183f_91e6;

pub const TIME_DOUBLE_SINE: u64 = 0x3fa4_ea28_fe26_0b2d;

/// Bits of the terms of the declination: `0.006918`, `0.399912`, `0.070257`,
/// `0.006758`, `0.000907`, `0.002697` and `0.00148`.
pub const TILT_CONSTANT: u64 = 0x3f7c_560c_7c0f_4517;

pub const TILT_COSINE: u64 = 0x3fd9_9828_8051_c9f7;

pub const TILT_SINE: u64 = 0x3fb1_fc5c_dd50_a88f;

pub const TILT_DOUBLE_COSINE: u64 = 0x3f7b_ae46_cfc8_29d0;

pub const TILT_DOUBLE_SINE: u64 = 0x3f4d_b877_ab32_4852;

pub const TILT_TRIPLE_COSINE: u64 = 0x3f66_1804_d983_9475;

pub const TILT_TRIPLE_SINE: u64 = 0x3f58_3f91_e646_f156;

/// Bits of `720.0`: noon in minutes.
pub const NOON_MINUTES: u64 = 0x4086_8000_0000_0000;

/// Bits of `1440.0`: a day in minutes.
pub const DAY_MINUTES: u64 = 0x4096_8000_0000_0000;

/// Bits of `4.0`: minutes in which the earth turns one degree.
pub const MINUTES_PER_DEGREE: u64 = 0x4010_0000_0000_0000;

/// Bits of `60.0`.
pub const SECONDS_PER_MINUTE: u64 = 0x404e_0000_0000_0000;

impl SeasonAngles {
    /// Minutes that the sun runs ahead of the clock.
    pub open spec fn ahead(self) -> Double {
        (Double { bits: TIME_SCALE }).product(
            (Double { bits: TIME_CONSTANT }).sum(
                (Double { bits: TIME_COSINE }).product(self.cosine),
            ).difference((Double { bits: TIME_SINE }).product(self.sine)).difference(
                (Double { bits: TIME_DOUBLE_COSINE }).product(self.double_cosine),
            ).difference((Double { bits: TIME_DOUBLE_SINE }).product(self.double_sine)),
        )
    }

    /// Latitude at which the sun stands overhead, in radians.
    pub open spec fn tilt(self) -> Double {
        (Double { bits: TILT_CONSTANT }).difference(
            (Double { bits: TILT_COSINE }).product(self.cosine),
        ).sum((Double { bits: TILT_SINE }).product(self.sine)).difference(
            (Double { bits: TILT_DOUBLE_COSINE }).product(self.double_cosine),
        ).sum((Double { bits: TILT_DOUBLE_SINE }).product(self.double_sine)).difference(
            (Double { bits: TILT_TRIPLE_COSINE }).product(self.triple_cosine),
        ).sum((Double { bits: TILT_TRIPLE_SINE }).product(self.triple_sine))
    }

    pub fn equation_of_time(self) -> (minutes: Double)
        ensures
            minutes == self.ahead(),
    {
        Double::from_bits(TIME_SCALE).times(
            Double::from_bits(TIME_CONSTANT).plus(
                Double::from_bits(TIME_COSINE).times(self.cosine),
            ).minus(Double::from_bits(TIME_SINE).times(self.sine)).minus(
                Double::from_bits(TIME_DOUBLE_COSINE).times(self.double_cosine),
            ).minus(Double::from_bits(TIME_DOUBLE_SINE).times(self.double_sine)),
        )
    }

    pub fn declination(self) -> (radians: Double)
        ensures
            radians == self.tilt(),
    {
        Double::from_bits(TILT_CONSTANT).minus(
            Double::from_bits(TILT_COSINE).times(self.cosine),
        ).plus(Double::from_bits(TILT_SINE).times(self.sine)).minus(
            Double::from_bits(TILT_DOUBLE_COSINE).times(self.double_cosine),
        ).plus(Double::from_bits(TILT_DOUBLE_SINE).times(self.double_sine)).minus(
            Double::from_bits(TILT_TRIPLE_COSINE).times(self.triple_cosine),
        ).plus(Double::from_bits(TILT_TRIPLE_SINE).times(self.triple_sine))
    }
}

/// Minutes after local midnight at which the sun stands highest.
pub fn solar_noon(longitude: Double, equation_of_time: Double, offset_seconds: i32) -> (minutes:
    Double)
    ensures
        minutes == (Double { bits: NOON_MINUTES }).difference(
            (Double { bits: MINUTES_PER_DEGREE }).product(longitude),
        ).difference(equation_of_time).sum(
            Double::of_int(offset_seconds as int).quotient(Double { bits: SECONDS_PER_MINUTE }),
        ),
        crate::sky::noon_lies(longitude, equation_of_time, offset_seconds as int, minutes),
{
    proof {
        crate::sky::noon_follows_longitude_and_zone(
            longitude,
            equation_of_time,
            offset_seconds as int,
        );
    }
    Double::from_bits(NOON_MINUTES).minus(
        Double::from_bits(MINUTES_PER_DEGREE).times(longitude),
    ).minus(equation_of_time).plus(
        Double::from_i32(offset_seconds).over(Double::from_bits(SECONDS_PER_MINUTE)),
    )
}

/// Cosine of the angle between noon and sunrise: outside `-1.0..=1.0` where the
/// sun does not rise or does not set.
pub fn hour_angle_cosine(
    zenith_cosine: Double,
    latitude_cosine: Double,
    latitude_tangent: Double,
    declination_cosine: Double,
    declination_tangent: Double,
) -> (cosine: Double)
    ensures
        cosine == zenith_cosine.quotient(latitude_cosine.product(declination_cosine)).difference(
            latitude_tangent.product(declination_tangent),
        ),
        crate::sky::day_opens(
            zenith_cosine,
            latitude_cosine,
            latitude_tangent,
            declination_cosine,
            declination_tangent,
            cosine,
        ),
{
    proof {
        crate::sky::days_open_with_latitude_and_season(
            zenith_cosine,
            latitude_cosine,
            latitude_tangent,
            declination_cosine,
            declination_tangent,
        );
    }
    zenith_cosine.over(latitude_cosine.times(declination_cosine)).minus(
        latitude_tangent.times(declination_tangent),
    )
}

/// The sun rises and sets on a day with this cosine of the hour angle.
pub open spec fn ordinary(cosine: Double) -> bool {
    (Double { bits: ONE }).negated().at_most(cosine) && cosine.at_most(Double { bits: ONE })
}

pub fn sun_rises(cosine: Double) -> (rises: bool)
    ensures
        rises == ordinary(cosine),
{
    let one = Double::from_bits(ONE);
    one.neg().le(cosine) && cosine.le(one)
}

/// The nearest whole number of minutes, halves away from zero, limited to what
/// `i32` holds; zero for NaN.
pub open spec fn whole_minutes(minutes: Double) -> i32 {
    let count = minutes.magnitude().rounded();
    if minutes.nan() {
        0
    } else if minutes.negative() {
        if count > 0x8000_0000 {
            i32::MIN
        } else {
            (-count) as i32
        }
    } else if count > 0x7fff_ffff {
        i32::MAX
    } else {
        count as i32
    }
}

fn round_minutes(minutes: Double) -> (result: i32)
    ensures
        result == whole_minutes(minutes),
{
    if minutes.is_nan() {
        return 0;
    }
    let count: u64 = minutes.abs().round_to_u64();
    if minutes.is_negative() {
        if count > 0x8000_0000 {
            i32::MIN
        } else {
            (-(count as i64)) as i32
        }
    } else if count > 0x7fff_ffff {
        i32::MAX
    } else {
        count as i32
    }
}

fn normalize_minutes(minutes: Double) -> (result: i32)
    ensures
        result == whole_minutes(minutes) as int % MINUTES_PER_DAY as int,
{
    // A multiple of the day keeps the remainder and makes it nonnegative.
    let shifted: u64 = (round_minutes(minutes) as i64 + 2_147_484_960) as u64;
    (shifted % 1_440) as i32
}

/// A day's sunrise, highest sun and sunset in minutes after local midnight; no
/// sunrise and no sunset on a day of midnight sun or polar night.
#[derive(Debug, Clone, Copy, PartialEq, Eq)]
pub struct SolarEvents {
    pub sunrise_minutes: Option<i32>,
    pub noon_minutes: i32,
    pub sunset_minutes: Option<i32>,
}

impl SolarEvents {
    /// The events around a noon in minutes; `hour_angle` is how far in degrees the sun
    /// turns from sunrise to noon, none where it does not rise or does not set.
    pub open spec fn centered(noon: Double, hour_angle: Option<Double>) -> Self {
        let noon = noon.wrapped(Double { bits: DAY_MINUTES });
        SolarEvents {
            sunrise_minutes: match hour_angle {
                Some(degrees) => Some(
                    whole_minutes(
                        noon.difference(degrees.product(Double { bits: MINUTES_PER_DEGREE })),
                    ),
                ),
                None => None,
            },
            noon_minutes: (whole_minutes(noon) as int % MINUTES_PER_DAY as int) as i32,
            sunset_minutes: match hour_angle {
                Some(degrees) => Some(
                    whole_minutes(noon.sum(degrees.product(Double { bits: MINUTES_PER_DEGREE }))),
                ),
                None => None,
            },
        }
    }

    pub fn around(noon: Double, hour_angle: Option<Double>) -> (result: Self)
        ensures
            result == SolarEvents::centered(noon, hour_angle),
            0 <= result.noon_minutes < MINUTES_PER_DAY,
    {
        let noon = noon.rem_euclid(Double::from_bits(DAY_MINUTES));
        let noon_minutes: i32 = normalize_minutes(noon);
        match hour_angle {
            Some(degrees) => {
                let half_day = degrees.times(Double::from_bits(MINUTES_PER_DEGREE));
                SolarEvents {
                    sunrise_minutes: Some(round_minutes(noon.minus(half_day))),
                    noon_minutes,
                    sunset_minutes: Some(round_minutes(noon.plus(half_day))),
                }
            },
            None => SolarEvents { sunrise_minutes: None, noon_minutes, sunset_minutes: None },
        }
    }
}

/// `value` limited to `low..=high`.
pub open spec fn limit(value: int, low: int, high: int) -> int {
    if value < low {
        low
    } else if value > high {
        high
    } else {
        value
    }
}

fn limited(value: i64, low: i64, high: i64) -> (result: i64)
    ensures
        result == limit(value as int, low as int, high as int),
{
    if value < low {
        low
    } else if value > high {
        high
    } else {
        value
    }
}

/// The part `factor` of the way from `low` to `high`.
pub open spec fn part_way(low: Double, high: Double, factor: Double) -> Double {
    low.sum(high.difference(low).product(factor))
}

fn blend(low: Double, high: Double, factor: Double) -> (result: Double)
    ensures
        result == part_way(low, high, factor),
{
    low.plus(high.minus(low).times(factor))
}

/// The colour temperature part of the way from `night` to `day`, in equal steps
/// of mireds.
pub open spec fn warmth_between(night: Kelvin, day: Kelvin, factor: Double) -> Double {
    let scale = Double { bits: MIRED_SCALE };
    scale.quotient(part_way(scale.quotient(night.value), scale.quotient(day.value), factor))
}

fn blend_kelvin(night: Kelvin, day: Kelvin, factor: Double) -> (result: Double)
    ensures
        result == warmth_between(night, day, factor),
{
    let scale = Double::from_bits(MIRED_SCALE);
    let night_mired = scale.over(night.get());
    let day_mired = scale.over(day.get());
    scale.over(blend(night_mired, day_mired, factor))
}

/// Whole minutes after midnight.
pub open spec fn minutes_of(time: TimeOfDay) -> int {
    time.seconds as int / 60
}

fn minutes(time: TimeOfDay) -> (result: i32)
    requires
        time.wf(),
    ensures
        result == minutes_of(time),
        0 <= result < 1_440,
{
    (time.seconds() / 60) as i32
}

/// A daily curve between wake time and bed time that follows the sun.
#[derive(Debug, PartialEq)]
pub struct SolarHybridCurve {
    pub coordinates: Coordinates,
    pub time_zone: TimeZone,
    pub wake_time: TimeOfDay,
    pub bed_time: TimeOfDay,
    pub night_brightness: Brightness,
    pub day_brightness: Brightness,
    pub night_kelvin: Kelvin,
    pub day_kelvin: Kelvin,
    pub winter_hold: Option<WinterHold>,
}

impl Clone for SolarHybridCurve {
    fn clone(&self) -> (result: Self)
        ensures
            result == *self,
    {
        SolarHybridCurve {
            coordinates: self.coordinates,
            time_zone: self.time_zone.clone(),
            wake_time: self.wake_time,
            bed_time: self.bed_time,
            night_brightness: self.night_brightness,
            day_brightness: self.day_brightness,
            night_kelvin: self.night_kelvin,
            day_kelvin: self.day_kelvin,
            winter_hold: self.winter_hold,
        }
    }
}

/// All anchors, or the first error among them.
pub open spec fn collected(results: Seq<Result<CurveAnchor, CurveError>>) -> Result<
    Seq<CurveAnchor>,
    CurveError,
>
    decreases results.len(),
{
    if results.len() == 0 {
        Ok(Seq::empty())
    } else {
        match (collected(results.drop_last()), results.last()) {
            (Err(error), _) => Err(error),
            (_, Err(error)) => Err(error),
            (Ok(anchors), Ok(anchor)) => Ok(anchors.push(anchor)),
        }
    }
}

proof fn lemma_collected(results: Seq<Result<CurveAnchor, CurveError>>, anchors: Seq<CurveAnchor>)
    requires
        results.len() == anchors.len(),
        forall|i: int|
            0 <= i < anchors.len() ==> (#[trigger] results[i]) == Ok::<CurveAnchor, CurveError>(
                anchors[i],
            ),
    ensures
        collected(results) == Ok::<Seq<CurveAnchor>, CurveError>(anchors),
    decreases results.len(),
{
    if results.len() > 0 {
        lemma_collected(results.drop_last(), anchors.drop_last());
        assert(anchors.drop_last().push(anchors.last()) =~= anchors);
        assert(results.last() == results[results.len() - 1]);
    } else {
        assert(anchors =~= Seq::empty());
    }
}

proof fn lemma_collected_error(
    results: Seq<Result<CurveAnchor, CurveError>>,
    at: int,
    error: CurveError,
)
    requires
        0 <= at < results.len(),
        results[at] == Err::<CurveAnchor, CurveError>(error),
        forall|i: int| 0 <= i < at ==> (#[trigger] results[i]) is Ok,
    ensures
        collected(results) == Err::<Seq<CurveAnchor>, CurveError>(error),
    decreases results.len(),
{
    let rest = results.drop_last();
    if at < rest.len() {
        lemma_collected_error(rest, at, error);
    } else {
        let anchors = Seq::new(rest.len(), |i: int| rest[i]->Ok_0);
        lemma_collected(rest, anchors);
    }
}

/// The mireds of valid colour temperatures.
proof fn lemma_mireds(night: Kelvin, day: Kelvin)
    requires
        night.wf(),
        day.wf(),
        !day.value.at_most(night.value),
    ensures
        ({
            let night_mired = (Double { bits: MIRED_SCALE }).quotient(night.value);
            let day_mired = (Double { bits: MIRED_SCALE }).quotient(day.value);
            &&& night_mired.finite()
            &&& day_mired.finite()
            &&& (Double { bits: 0 }).at_most(day_mired)
            &&& day_mired.at_most(night_mired)
        }),
{
    let scale = Double { bits: MIRED_SCALE };
    Double::positive_quotients(scale, day.value);
    Double::quotient_decreases(scale, night.value, day.value);
}

/// Mireds between two that give valid light give valid light.
proof fn lemma_between_lights(least: Double, reached: Double, most: Double)
    requires
        Kelvin::checked((Double { bits: MIRED_SCALE }).quotient(least)) is Ok,
        Kelvin::checked((Double { bits: MIRED_SCALE }).quotient(most)) is Ok,
        least.at_most(reached),
        reached.at_most(most),
    ensures
        Kelvin::checked((Double { bits: MIRED_SCALE }).quotient(reached)) is Ok,
{
    let scale = Double { bits: MIRED_SCALE };
    Double::positive_quotients(scale, least);
    Double::positive_quotients(scale, most);
    Double::quotient_decreases(scale, least, reached);
    Double::quotient_decreases(scale, reached, most);
    Kelvin::between_is_valid(
        Kelvin { value: scale.quotient(most) },
        Kelvin { value: scale.quotient(least) },
        scale.quotient(reached),
    );
}

/// The light on the way from one end to the other is valid where that at both
/// ends is.
proof fn lemma_way(from: Double, to: Double, factor: Double)
    requires
        from.finite(),
        to.finite(),
        (Double { bits: 0 }).at_most(to),
        to.at_most(from),
        factor.finite(),
        !factor.negative(),
        factor.at_most(Double { bits: ONE }),
        Kelvin::checked(
            (Double { bits: MIRED_SCALE }).quotient(part_way(from, to, Double { bits: 0 })),
        ) is Ok,
        Kelvin::checked(
            (Double { bits: MIRED_SCALE }).quotient(part_way(from, to, Double { bits: ONE })),
        ) is Ok,
    ensures
        Kelvin::checked((Double { bits: MIRED_SCALE }).quotient(part_way(from, to, factor))) is Ok,
{
    Double::ways_down_keep_order(from, to, factor);
    lemma_between_lights(
        part_way(from, to, Double { bits: ONE }),
        part_way(from, to, factor),
        part_way(from, to, Double { bits: 0 }),
    );
}

proof fn lemma_warmth(night: Kelvin, day: Kelvin, factor: Double)
    requires
        night.wf(),
        day.wf(),
        !day.value.at_most(night.value),
        factor.finite(),
        !factor.negative(),
        factor.at_most(Double { bits: ONE }),
        Kelvin::checked(warmth_between(night, day, Double { bits: 0 })) is Ok,
        Kelvin::checked(warmth_between(night, day, Double { bits: ONE })) is Ok,
    ensures
        Kelvin::checked(warmth_between(night, day, factor)) is Ok,
{
    let scale = Double { bits: MIRED_SCALE };
    lemma_mireds(night, day);
    lemma_way(scale.quotient(night.value), scale.quotient(day.value), factor);
}

/// From half a mired to a million, the light has a valid colour temperature.
proof fn lemma_light(mired: Double)
    requires
        (Double { bits: 0x3fe0_0000_0000_0000 }).at_most(mired),
        mired.at_most(Double { bits: MIRED_SCALE }),
    ensures
        Kelvin::checked((Double { bits: MIRED_SCALE }).quotient(mired)) is Ok,
{
    let scale = Double { bits: MIRED_SCALE };
    let half = Double { bits: 0x3fe0_0000_0000_0000 };
    let one = Double { bits: ONE };
    Double::simple_quotients(scale);
    Double::quotient_decreases(scale, half, mired);
    Double::quotient_decreases(scale, mired, scale);
    Double::quotient_decreases(scale, one, scale.quotient(mired));
}

/// Colour temperatures from one kelvin to a million have mireds in that range.
proof fn lemma_ordinary_mireds(night: Kelvin, day: Kelvin)
    requires
        night.wf(),
        day.wf(),
        (Double { bits: ONE }).at_most(night.value),
        day.value.at_most(Double { bits: MIRED_SCALE }),
    ensures
        (Double { bits: MIRED_SCALE }).quotient(night.value).at_most(Double { bits: MIRED_SCALE }),
        (Double { bits: ONE }).at_most((Double { bits: MIRED_SCALE }).quotient(day.value)),
{
    let scale = Double { bits: MIRED_SCALE };
    Double::simple_quotients(scale);
    Double::quotient_decreases(scale, Double { bits: ONE }, night.value);
    Double::quotient_decreases(scale, day.value, scale);
}

proof fn lemma_lights(from: Double, least: Double, most: Double)
    requires
        (Double { bits: 0x3fe0_0000_0000_0000 }).at_most(least),
        least.at_most(most),
        most.same(from),
        from.at_most(Double { bits: MIRED_SCALE }),
    ensures
        Kelvin::checked((Double { bits: MIRED_SCALE }).quotient(least)) is Ok,
        Kelvin::checked((Double { bits: MIRED_SCALE }).quotient(most)) is Ok,
{
    lemma_light(least);
    lemma_light(most);
}

/// Both ends of the way between such mireds give valid light.
#[verifier::spinoff_prover]
#[verifier::rlimit(60)]
proof fn lemma_ends(from: Double, to: Double)
    requires
        from.finite(),
        to.finite(),
        (Double { bits: ONE }).at_most(to),
        to.at_most(from),
        from.at_most(Double { bits: MIRED_SCALE }),
    ensures
        Kelvin::checked(
            (Double { bits: MIRED_SCALE }).quotient(part_way(from, to, Double { bits: 0 })),
        ) is Ok,
        Kelvin::checked(
            (Double { bits: MIRED_SCALE }).quotient(part_way(from, to, Double { bits: ONE })),
        ) is Ok,
{
    let least = part_way(from, to, Double { bits: ONE });
    let most = part_way(from, to, Double { bits: 0 });
    assert((Double { bits: 0x3fe0_0000_0000_0000 }).at_most(least) && least.at_most(most)
        && most.same(from)) by {
        Double::ways_down_keep_order(from, to, Double { bits: ONE });
        Double::ways_down_stay_up(from, to);
    }
    lemma_lights(from, least, most);
}

/// Valid anchors at moments in order give a point at every time.
proof fn lemma_shown(
    results: Seq<Result<CurveAnchor, CurveError>>,
    anchors: Seq<CurveAnchor>,
    moments: HybridMoments,
    time: TimeOfDay,
)
    requires
        results.len() == 6,
        collected(results) == Ok::<Seq<CurveAnchor>, CurveError>(anchors),
        forall|i: int|
            0 <= i < 6 ==> ((#[trigger] results[i]) matches Ok(anchor) ==> anchor.wf()
                && anchor.time.seconds == moments.minutes(i) * 60),
        forall|i: int, j: int|
            0 <= i < j < 6 ==> #[trigger] moments.minutes(i) < #[trigger] moments.minutes(j),
        time.wf(),
    ensures
        crate::curve::point_through(anchors, time) is Ok,
{
    lemma_collected_all(results, anchors);
    assert forall|i: int| 0 <= i < anchors.len() implies (#[trigger] anchors[i]).wf() by {
        assert(results[i] is Ok);
    }
    assert(crate::curve::strictly_timed(anchors)) by {
        assert forall|i: int, j: int| 0 <= i < j < anchors.len() implies (
        #[trigger] anchors[i]).time.seconds < (#[trigger] anchors[j]).time.seconds by {
            assert(results[i] is Ok && results[j] is Ok);
            assert(moments.minutes(i) < moments.minutes(j));
        }
    }
    crate::curve::points_at_all_times(anchors, time);
}

/// Collected anchors are what was given.
pub(crate) proof fn lemma_collected_all(
    results: Seq<Result<CurveAnchor, CurveError>>,
    anchors: Seq<CurveAnchor>,
)
    requires
        collected(results) == Ok::<Seq<CurveAnchor>, CurveError>(anchors),
    ensures
        anchors.len() == results.len(),
        forall|i: int|
            0 <= i < results.len() ==> #[trigger] results[i] == Ok::<CurveAnchor, CurveError>(
                anchors[i],
            ),
    decreases results.len(),
{
    if results.len() > 0 {
        let rest = results.drop_last();
        let before = collected(rest)->Ok_0;
        lemma_collected_all(rest, before);
        assert forall|i: int| 0 <= i < results.len() implies #[trigger] results[i] == Ok::<
            CurveAnchor,
            CurveError,
        >(anchors[i]) by {
            if i < rest.len() {
                assert(rest[i] == results[i]);
            }
        }
    }
}

/// Part of the way between two brightnesses is a brightness.
proof fn lemma_share(low: Double, high: Double, factor: Double)
    requires
        low.finite(),
        high.finite(),
        (Double { bits: 0 }).at_most(low),
        low.at_most(high),
        high.at_most(Double { bits: ONE }),
        factor.finite(),
        !factor.negative(),
        factor.at_most(Double { bits: ONE }),
    ensures
        crate::value::in_range(
            part_way(low, high, factor),
            Double { bits: 0 },
            Double { bits: ONE },
        ) is Ok,
{
    Double::ways_stay_within_one(low, high, factor);
}

proof fn lemma_collected_fails(results: Seq<Result<CurveAnchor, CurveError>>, at: int)
    requires
        0 <= at < results.len(),
        results[at] is Err,
    ensures
        collected(results) is Err,
    decreases results.len(),
{
    let rest = results.drop_last();
    if at < rest.len() {
        lemma_collected_fails(rest, at);
    }
}

/// The six moments of a hybrid day, in minutes after midnight.
pub struct HybridMoments {
    pub wake: int,
    pub morning_ready: int,
    pub noon: int,
    pub color_evening: int,
    pub brightness_evening: int,
    pub bed: int,
}

impl HybridMoments {
    /// The moments by number.
    pub open spec fn minutes(self, i: int) -> int {
        if i == 0 {
            self.wake
        } else if i == 1 {
            self.morning_ready
        } else if i == 2 {
            self.noon
        } else if i == 3 {
            self.color_evening
        } else if i == 4 {
            self.brightness_evening
        } else {
            self.bed
        }
    }
}

impl SolarHybridCurve {
    pub open spec fn wf(self) -> bool {
        &&& self.wake_time.wf()
        &&& self.bed_time.wf()
        &&& self.bed_time.seconds - self.wake_time.seconds >= MINIMUM_AWAKE_SECONDS
        &&& !self.day_brightness.value.at_most(self.night_brightness.value)
        &&& !self.day_kelvin.value.at_most(self.night_kelvin.value)
    }

    /// The day whose sun is followed on `date`.
    pub open spec fn followed(self, date: LocalDate) -> LocalDate {
        match self.winter_hold {
            Some(hold) => hold.mapped(date),
            None => date,
        }
    }

    pub open spec fn moments(self, events: SolarEvents) -> HybridMoments {
        let wake = minutes_of(self.wake_time);
        let bed = minutes_of(self.bed_time);
        let noon = limit(events.noon_minutes as int, wake + 180, bed - 240);
        let morning_ready = limit(
            match events.sunrise_minutes {
                Some(sunrise) => if sunrise + 45 > wake + 90 {
                    sunrise + 45
                } else {
                    wake + 90
                },
                None => wake + 90,
            },
            wake + 60,
            noon - 60,
        );
        let color_evening = limit(
            match events.sunset_minutes {
                Some(sunset) => sunset + 45,
                None => bed - 180,
            },
            noon + 60,
            bed - 150,
        );
        let brightness_evening = limit(
            match events.sunset_minutes {
                Some(sunset) => sunset + 120,
                None => bed - 90,
            },
            color_evening + 60,
            bed - 90,
        );
        HybridMoments { wake, morning_ready, noon, color_evening, brightness_evening, bed }
    }

    /// The anchor at a moment of the day.
    #[verifier::opaque]
    pub open spec fn anchored(self, minutes: int, brightness_factor: u64, color_factor: u64) -> Result<
        CurveAnchor,
        CurveError,
    > {
        let light = part_way(
            self.night_brightness.value,
            self.day_brightness.value,
            Double { bits: brightness_factor },
        );
        let warmth = warmth_between(
            self.night_kelvin,
            self.day_kelvin,
            Double { bits: color_factor },
        );
        match (
            crate::value::in_range(light, Double { bits: 0 }, Double { bits: ONE }),
            Kelvin::checked(warmth),
        ) {
            (Err(error), _) => Err(CurveError::InvalidValue(error)),
            (_, Err(error)) => Err(CurveError::InvalidValue(error)),
            (Ok(value), Ok(color_temperature)) => Ok(
                CurveAnchor {
                    time: TimeOfDay { seconds: (minutes * 60) as u32 },
                    brightness: Brightness { value },
                    color_temperature,
                },
            ),
        }
    }

    /// The anchors that a day's events give.
    pub open spec fn anchors_for(self, events: SolarEvents) -> Seq<Result<CurveAnchor, CurveError>> {
        let moments = self.moments(events);
        seq![
            self.anchored(moments.wake, 0, 0),
            self.anchored(moments.morning_ready, MORNING_BRIGHTNESS, MORNING_COLOR),
            self.anchored(moments.noon, ONE, ONE),
            self.anchored(moments.color_evening, ONE, EVENING_COLOR),
            self.anchored(moments.brightness_evening, DUSK_BRIGHTNESS, DUSK_COLOR),
            self.anchored(moments.bed, 0, 0),
        ]
    }

    /// The anchors of a day with these events, or what is wrong with the first
    /// that is not valid.
    pub open spec fn day_anchors(self, events: SolarEvents) -> Result<
        Seq<CurveAnchor>,
        CurveError,
    > {
        collected(self.anchors_for(events))
    }

    pub fn new(
        coordinates: Coordinates,
        time_zone: TimeZone,
        wake_time: TimeOfDay,
        bed_time: TimeOfDay,
        night_brightness: Brightness,
        day_brightness: Brightness,
        night_kelvin: Kelvin,
        day_kelvin: Kelvin,
        winter_hold: Option<WinterHold>,
    ) -> (result: Result<Self, SolarError>)
        requires
            wake_time.wf(),
            bed_time.wf(),
        ensures
            ({
                let curve = SolarHybridCurve {
                    coordinates,
                    time_zone,
                    wake_time,
                    bed_time,
                    night_brightness,
                    day_brightness,
                    night_kelvin,
                    day_kelvin,
                    winter_hold,
                };
                result == if curve.wf() {
                    Ok::<SolarHybridCurve, SolarError>(curve)
                } else {
                    Err(SolarError::InvalidSchedule)
                }
            }),
    {
        if bed_time.seconds() < wake_time.seconds() || bed_time.seconds() - wake_time.seconds()
            < MINIMUM_AWAKE_SECONDS {
            return Err(SolarError::InvalidSchedule);
        }
        if day_brightness.get().le(night_brightness.get()) || day_kelvin.get().le(
            night_kelvin.get(),
        ) {
            return Err(SolarError::InvalidSchedule);
        }
        Ok(
            SolarHybridCurve {
                coordinates,
                time_zone,
                wake_time,
                bed_time,
                night_brightness,
                day_brightness,
                night_kelvin,
                day_kelvin,
                winter_hold,
            },
        )
    }

    /// The day whose sun is followed on `date`.
    pub fn effective_date(&self, date: LocalDate) -> (result: LocalDate)
        ensures
            result == self.followed(date),
            date.wf() ==> result.wf(),
    {
        match self.winter_hold {
            Some(hold) => hold.effective_date(date),
            None => date,
        }
    }

    /// The curve of a day with these events.
    pub fn generated_curve(&self, events: SolarEvents) -> (result: Result<
        CircadianCurve,
        CurveError,
    >)
        requires
            self.wf(),
        ensures
            match result {
                Ok(curve) => curve.wf() && self.day_anchors(events) == Ok::<
                    Seq<CurveAnchor>,
                    CurveError,
                >(curve.anchors@),
                Err(error) => self.day_anchors(events) == Err::<Seq<CurveAnchor>, CurveError>(
                    error,
                ),
            },
    {
        let (wake, morning_ready, noon, color_evening, brightness_evening, bed) =
            self.moments_of_day(events);
        let ghost expected = self.anchors_for(events);
        let first = match self.anchor(wake, 0, 0) {
            Ok(anchor) => anchor,
            Err(error) => {
                proof {
                    lemma_collected_error(expected, 0, error);
                }
                return Err(error);
            },
        };
        let second = match self.anchor(morning_ready, MORNING_BRIGHTNESS, MORNING_COLOR) {
            Ok(anchor) => anchor,
            Err(error) => {
                proof {
                    lemma_collected_error(expected, 1, error);
                }
                return Err(error);
            },
        };
        let third = match self.anchor(noon, ONE, ONE) {
            Ok(anchor) => anchor,
            Err(error) => {
                proof {
                    lemma_collected_error(expected, 2, error);
                }
                return Err(error);
            },
        };
        let fourth = match self.anchor(color_evening, ONE, EVENING_COLOR) {
            Ok(anchor) => anchor,
            Err(error) => {
                proof {
                    lemma_collected_error(expected, 3, error);
                }
                return Err(error);
            },
        };
        let fifth = match self.anchor(brightness_evening, DUSK_BRIGHTNESS, DUSK_COLOR) {
            Ok(anchor) => anchor,
            Err(error) => {
                proof {
                    lemma_collected_error(expected, 4, error);
                }
                return Err(error);
            },
        };
        let sixth = match self.anchor(bed, 0, 0) {
            Ok(anchor) => anchor,
            Err(error) => {
                proof {
                    lemma_collected_error(expected, 5, error);
                }
                return Err(error);
            },
        };
        let mut anchors: Vec<CurveAnchor> = Vec::new();
        anchors.push(first);
        anchors.push(second);
        anchors.push(third);
        anchors.push(fourth);
        anchors.push(fifth);
        anchors.push(sixth);
        assert(crate::curve::strictly_timed(anchors@));
        let curve = CircadianCurve::new(anchors);
        proof {
            lemma_collected(expected, anchors@);
            assert forall|seconds: u32| crate::curve::anchors_at(anchors@, seconds) <= 1 by {
                crate::curve::lemma_strict_is_single(anchors@, seconds);
            }
        }
        curve
    }

    fn moments_of_day(&self, events: SolarEvents) -> (result: (i32, i32, i32, i32, i32, i32))
        requires
            self.wf(),
        ensures
            ({
                let moments = self.moments(events);
                &&& result.0 == moments.wake
                &&& result.1 == moments.morning_ready
                &&& result.2 == moments.noon
                &&& result.3 == moments.color_evening
                &&& result.4 == moments.brightness_evening
                &&& result.5 == moments.bed
            }),
            0 <= result.0 < result.1 < result.2 < result.3 < result.4 < result.5 < 1_440,
    {
        let wake: i64 = minutes(self.wake_time) as i64;
        let bed: i64 = minutes(self.bed_time) as i64;
        let noon: i64 = limited(events.noon_minutes as i64, wake + 180, bed - 240);
        let morning_ready: i64 = limited(
            match events.sunrise_minutes {
                Some(sunrise) => if sunrise as i64 + 45 > wake + 90 {
                    sunrise as i64 + 45
                } else {
                    wake + 90
                },
                None => wake + 90,
            },
            wake + 60,
            noon - 60,
        );
        let color_evening: i64 = limited(
            match events.sunset_minutes {
                Some(sunset) => sunset as i64 + 45,
                None => bed - 180,
            },
            noon + 60,
            bed - 150,
        );
        let brightness_evening: i64 = limited(
            match events.sunset_minutes {
                Some(sunset) => sunset as i64 + 120,
                None => bed - 90,
            },
            color_evening + 60,
            bed - 90,
        );
        (
            wake as i32,
            morning_ready as i32,
            noon as i32,
            color_evening as i32,
            brightness_evening as i32,
            bed as i32,
        )
    }

    fn anchor(&self, minutes: i32, brightness_factor: u64, color_factor: u64) -> (result: Result<
        CurveAnchor,
        CurveError,
    >)
        requires
            0 <= minutes < 1_440,
        ensures
            result == self.anchored(minutes as int, brightness_factor, color_factor),
            result matches Ok(anchor) ==> anchor.wf() && anchor.time.seconds == minutes * 60,
    {
        proof {
            reveal(SolarHybridCurve::anchored);
        }
        let light = blend(
            self.night_brightness.get(),
            self.day_brightness.get(),
            Double::from_bits(brightness_factor),
        );
        let brightness = match Brightness::new(light) {
            Ok(brightness) => brightness,
            Err(error) => return Err(CurveError::InvalidValue(error)),
        };
        let warmth = blend_kelvin(
            self.night_kelvin,
            self.day_kelvin,
            Double::from_bits(color_factor),
        );
        let time = match TimeOfDay::from_seconds(minutes as u32 * 60) {
            Ok(time) => time,
            Err(error) => return Err(error),
        };
        CurveAnchor::new(time, brightness, warmth)
    }

    /// Every day has a curve, if and only if the light at wake time and the light
    /// at noon have valid colour temperatures.
    pub proof fn days_have_curves(self, events: SolarEvents)
        requires
            self.wf(),
            self.night_brightness.wf(),
            self.day_brightness.wf(),
            self.night_kelvin.wf(),
            self.day_kelvin.wf(),
        ensures
            self.day_anchors(events) is Ok <==> {
                &&& Kelvin::checked(
                    warmth_between(self.night_kelvin, self.day_kelvin, Double { bits: 0 }),
                ) is Ok
                &&& Kelvin::checked(
                    warmth_between(self.night_kelvin, self.day_kelvin, Double { bits: ONE }),
                ) is Ok
            },
    {
        let results = self.anchors_for(events);
        let moments = self.moments(events);
        let given = {
            &&& Kelvin::checked(
                warmth_between(self.night_kelvin, self.day_kelvin, Double { bits: 0 }),
            ) is Ok
            &&& Kelvin::checked(
                warmth_between(self.night_kelvin, self.day_kelvin, Double { bits: ONE }),
            ) is Ok
        };
        if given {
            self.lemma_anchored(moments.wake, 0, 0);
            self.lemma_anchored(moments.morning_ready, MORNING_BRIGHTNESS, MORNING_COLOR);
            self.lemma_anchored(moments.noon, ONE, ONE);
            self.lemma_anchored(moments.color_evening, ONE, EVENING_COLOR);
            self.lemma_anchored(moments.brightness_evening, DUSK_BRIGHTNESS, DUSK_COLOR);
            self.lemma_anchored(moments.bed, 0, 0);
            let anchors = Seq::new(results.len(), |i: int| results[i]->Ok_0);
            lemma_collected(results, anchors);
        } else {
            reveal(SolarHybridCurve::anchored);
            assert(results[0] is Err || results[2] is Err);
            if results[0] is Err {
                lemma_collected_fails(results, 0);
            } else {
                lemma_collected_fails(results, 2);
            }
        }
    }

    /// Where the colour temperatures lie between one kelvin and a million, every
    /// day has a curve.
    pub proof fn ordinary_days_have_curves(self, events: SolarEvents)
        requires
            self.wf(),
            self.night_brightness.wf(),
            self.day_brightness.wf(),
            self.night_kelvin.wf(),
            self.day_kelvin.wf(),
            (Double { bits: ONE }).at_most(self.night_kelvin.value),
            self.day_kelvin.value.at_most(Double { bits: MIRED_SCALE }),
        ensures
            self.day_anchors(events) is Ok,
    {
        let scale = Double { bits: MIRED_SCALE };
        lemma_mireds(self.night_kelvin, self.day_kelvin);
        lemma_ordinary_mireds(self.night_kelvin, self.day_kelvin);
        lemma_ends(
            scale.quotient(self.night_kelvin.value),
            scale.quotient(self.day_kelvin.value),
        );
        self.days_have_curves(events);
    }

    /// A day that has a curve shows light at every time.
    pub proof fn days_show_light(self, events: SolarEvents, time: TimeOfDay)
        requires
            self.wf(),
            time.wf(),
        ensures
            self.day_anchors(events) matches Ok(anchors) ==> crate::curve::point_through(
                anchors,
                time,
            ) is Ok,
    {
        let results = self.anchors_for(events);
        let moments = self.moments(events);
        self.moments_are_apart(events);
        if let Ok(anchors) = self.day_anchors(events) {
            self.lemma_anchor_shape(moments.wake, 0, 0);
            self.lemma_anchor_shape(moments.morning_ready, MORNING_BRIGHTNESS, MORNING_COLOR);
            self.lemma_anchor_shape(moments.noon, ONE, ONE);
            self.lemma_anchor_shape(moments.color_evening, ONE, EVENING_COLOR);
            self.lemma_anchor_shape(moments.brightness_evening, DUSK_BRIGHTNESS, DUSK_COLOR);
            self.lemma_anchor_shape(moments.bed, 0, 0);
            assert forall|i: int| 0 <= i < 6 implies ((#[trigger] results[i]) matches Ok(anchor)
                ==> anchor.wf() && anchor.time.seconds == moments.minutes(i) * 60) by {
                assert(i == 0 || i == 1 || i == 2 || i == 3 || i == 4 || i == 5);
            }
            lemma_shown(results, anchors, moments, time);
        }
    }

    proof fn lemma_anchor_shape(self, minutes: int, brightness_factor: u64, color_factor: u64)
        requires
            0 <= minutes < MINUTES_PER_DAY,
        ensures
            self.anchored(minutes, brightness_factor, color_factor) matches Ok(anchor)
                ==> anchor.wf() && anchor.time.seconds == minutes * 60,
    {
        reveal(SolarHybridCurve::anchored);
    }

    /// An anchor is valid where the light at both ends is.
    #[verifier::spinoff_prover]
    #[verifier::rlimit(100)]
    proof fn lemma_anchored(self, minutes: int, brightness_factor: u64, color_factor: u64)
        requires
            self.wf(),
            self.night_brightness.wf(),
            self.day_brightness.wf(),
            self.night_kelvin.wf(),
            self.day_kelvin.wf(),
            brightness_factor <= ONE,
            color_factor <= ONE,
            Kelvin::checked(
                warmth_between(self.night_kelvin, self.day_kelvin, Double { bits: 0 }),
            ) is Ok,
            Kelvin::checked(
                warmth_between(self.night_kelvin, self.day_kelvin, Double { bits: ONE }),
            ) is Ok,
        ensures
            self.anchored(minutes, brightness_factor, color_factor) is Ok,
    {
        let light = part_way(
            self.night_brightness.value,
            self.day_brightness.value,
            Double { bits: brightness_factor },
        );
        let warmth = warmth_between(
            self.night_kelvin,
            self.day_kelvin,
            Double { bits: color_factor },
        );
        assert(crate::value::in_range(light, Double { bits: 0 }, Double { bits: ONE }) is Ok) by {
            lemma_share(
                self.night_brightness.value,
                self.day_brightness.value,
                Double { bits: brightness_factor },
            );
        }
        assert(Kelvin::checked(warmth) is Ok) by {
            lemma_warmth(self.night_kelvin, self.day_kelvin, Double { bits: color_factor });
        }
        reveal(SolarHybridCurve::anchored);
    }

    /// Whatever the sun does, the six moments of the day follow one another at
    /// least an hour apart, within wake time and bed time.
    pub proof fn moments_are_apart(self, events: SolarEvents)
        requires
            self.wf(),
        ensures
            ({
                let moments = self.moments(events);
                &&& 0 <= moments.wake
                &&& moments.wake + 60 <= moments.morning_ready
                &&& moments.morning_ready + 60 <= moments.noon
                &&& moments.noon + 60 <= moments.color_evening
                &&& moments.color_evening + 60 <= moments.brightness_evening
                &&& moments.brightness_evening + 90 <= moments.bed
                &&& moments.bed < MINUTES_PER_DAY
            }),
    {
    }

    /// A generated day starts and ends with the night values.
    pub proof fn night_at_both_ends(self, events: SolarEvents)
        ensures
            self.anchors_for(events)[0] matches Ok(first) ==> self.anchors_for(
                events,
            )[5] matches Ok(last) && first.brightness == last.brightness && first.color_temperature
                == last.color_temperature,
    {
        reveal(SolarHybridCurve::anchored);
    }
}

/// Why a schedule has no point.
#[derive(Debug, Clone, Copy, PartialEq)]
pub enum ScheduleError {
    /// The sun of the followed day is not known.
    MissingSolarEvents,
    Curve(CurveError),
}

/// The sun on some days.
#[derive(Debug, PartialEq)]
pub struct SolarAlmanac {
    pub days: Vec<(LocalDate, SolarEvents)>,
}

/// Events of the first entry for `date`.
pub open spec fn listed(days: Seq<(LocalDate, SolarEvents)>, date: LocalDate) -> Option<SolarEvents>
    decreases days.len(),
{
    if days.len() == 0 {
        None
    } else if days[0].0 == date {
        Some(days[0].1)
    } else {
        listed(days.drop_first(), date)
    }
}

impl SolarAlmanac {
    pub open spec fn on(self, date: LocalDate) -> Option<SolarEvents> {
        listed(self.days@, date)
    }

    pub fn new(days: Vec<(LocalDate, SolarEvents)>) -> (result: Self)
        ensures
            result.days == days,
    {
        SolarAlmanac { days }
    }

    pub fn events_on(&self, date: LocalDate) -> (result: Option<SolarEvents>)
        ensures
            result == self.on(date),
    {
        let mut i: usize = 0;
        assert(self.days@.skip(0) =~= self.days@);
        while i < self.days.len()
            invariant
                i <= self.days@.len(),
                listed(self.days@, date) == listed(self.days@.skip(i as int), date),
            decreases self.days@.len() - i,
        {
            assert(self.days@.skip(i as int)[0] == self.days@[i as int]);
            let day = self.days[i].0;
            if day.year == date.year && day.month == date.month && day.day == date.day {
                return Some(self.days[i].1);
            }
            assert(self.days@.skip(i as int).drop_first() =~= self.days@.skip(i + 1));
            i = i + 1;
        }
        None
    }
}

impl Clone for SolarAlmanac {
    fn clone(&self) -> (result: Self)
        ensures
            result.days@ == self.days@,
    {
        let mut days: Vec<(LocalDate, SolarEvents)> = Vec::new();
        let mut i: usize = 0;
        while i < self.days.len()
            invariant
                i <= self.days@.len(),
                days@ == self.days@.take(i as int),
            decreases self.days@.len() - i,
        {
            days.push(self.days[i]);
            i = i + 1;
            assert(days@ =~= self.days@.take(i as int));
        }
        assert(days@ =~= self.days@);
        SolarAlmanac { days }
    }
}

/// A daily schedule: the same every day, or following the sun.
#[derive(Debug, Clone, PartialEq)]
pub enum CircadianSchedule {
    Fixed(CircadianCurve),
    SolarHybrid(SolarHybridCurve),
}

impl CircadianSchedule {
    pub open spec fn wf(self) -> bool {
        match self {
            CircadianSchedule::Fixed(curve) => curve.wf(),
            CircadianSchedule::SolarHybrid(curve) => curve.wf(),
        }
    }

    /// What the schedule shows at a moment, before device bounds.
    pub open spec fn sampled(self, date: LocalDate, time: TimeOfDay, almanac: SolarAlmanac) -> Result<
        CurvePoint,
        ScheduleError,
    > {
        let point = match self {
            CircadianSchedule::Fixed(curve) => Some(curve.point_at(time)),
            CircadianSchedule::SolarHybrid(curve) => match almanac.on(curve.followed(date)) {
                Some(events) => Some(
                    match curve.day_anchors(events) {
                        Ok(anchors) => crate::curve::point_through(anchors, time),
                        Err(error) => Err(error),
                    },
                ),
                None => None,
            },
        };
        match point {
            Some(Ok(point)) => Ok(point),
            Some(Err(error)) => Err(ScheduleError::Curve(error)),
            None => Err(ScheduleError::MissingSolarEvents),
        }
    }

    /// The day whose sun the schedule needs on `date`.
    pub open spec fn needed(self, date: LocalDate) -> Option<LocalDate> {
        match self {
            CircadianSchedule::Fixed(_) => None,
            CircadianSchedule::SolarHybrid(curve) => Some(curve.followed(date)),
        }
    }

    pub fn sample(&self, date: LocalDate, time: TimeOfDay, almanac: &SolarAlmanac) -> (result: Result<
        CurvePoint,
        ScheduleError,
    >)
        requires
            self.wf(),
            time.wf(),
        ensures
            result == self.sampled(date, time, *almanac),
    {
        match self {
            CircadianSchedule::Fixed(curve) => match curve.point(time) {
                Ok(point) => Ok(point),
                Err(error) => Err(ScheduleError::Curve(error)),
            },
            CircadianSchedule::SolarHybrid(curve) => match almanac.events_on(
                curve.effective_date(date),
            ) {
                Some(events) => match curve.generated_curve(events) {
                    Ok(day) => match day.point(time) {
                        Ok(point) => Ok(point),
                        Err(error) => Err(ScheduleError::Curve(error)),
                    },
                    Err(error) => Err(ScheduleError::Curve(error)),
                },
                None => Err(ScheduleError::MissingSolarEvents),
            },
        }
    }

    /// The day whose sun the schedule needs on `date`; none for a fixed schedule.
    pub fn needed_day(&self, date: LocalDate) -> (result: Option<LocalDate>)
        ensures
            result == self.needed(date),
    {
        match self {
            CircadianSchedule::Fixed(_) => None,
            CircadianSchedule::SolarHybrid(curve) => Some(curve.effective_date(date)),
        }
    }

    /// Through a whole hold a schedule shows the same every day.
    pub proof fn hold_keeps_the_curve(
        curve: SolarHybridCurve,
        hold: WinterHold,
        a: LocalDate,
        b: LocalDate,
        time: TimeOfDay,
        almanac: SolarAlmanac,
    )
        requires
            curve.winter_hold == Some(hold),
            hold.reference.wf(),
            hold.covers(MonthDay::of(a)),
            hold.covers(MonthDay::of(b)),
            hold.start_year(a) == hold.start_year(b),
            i32::MIN <= hold.start_year(a),
            hold.reference_year(a) <= i32::MAX,
        ensures
            CircadianSchedule::SolarHybrid(curve).sampled(a, time, almanac)
                == CircadianSchedule::SolarHybrid(curve).sampled(b, time, almanac),
    {
        hold.holds_one_day(a, b);
    }
}

} // verus!
