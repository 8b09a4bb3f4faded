//! Durable automation state: scopes, controls, offsets and curve modes.
use crate::curve::{CurvePoint, TimeOfDay};
use crate::double::Double;
use crate::ordered::{Duplicate, OrderedKey, SortedMap};
use crate::text;
use crate::value::{Brightness, Kelvin, KelvinRange, LayeredLightTarget, LightTarget, ValueError};
use vstd::prelude::*;

verus! {

/// Bits of `1.0`.
pub const ONE: u64 = 0x3ff0_0000_0000_0000;

#[derive(Debug, PartialEq)]
pub enum StateError {
    InvalidIdentifier,
    InvalidLocalDate,
    LocalDateOutOfRange,
    NonFinite,
    NegativeMonotonicTime,
    NonPositiveConvergenceDuration,
    MonotonicClockRegressed,
    UnknownScope(Scope),
    UnknownControl(ControlId),
    DuplicateScope(Scope),
    DuplicateControl(ControlId),
    InvalidValue(ValueError),
}

/// Name of a room, a floor, a curve or a configured scope.
#[derive(Debug, PartialEq, Eq, PartialOrd, Ord, Hash)]
pub struct ScopeId {
    pub text: String,
}

impl ScopeId {
    pub open spec fn wf(self) -> bool {
        text::identifier(self.text@)
    }

    pub fn new(value: String) -> (result: Result<Self, StateError>)
        ensures
            result == if text::identifier(value@) {
                Ok::<ScopeId, StateError>(ScopeId { text: value })
            } else {
                Err(StateError::InvalidIdentifier)
            },
    {
        if text::is_identifier(value.as_str()) {
            Ok(ScopeId { text: value })
        } else {
            Err(StateError::InvalidIdentifier)
        }
    }

    pub fn as_str(&self) -> (text: &str)
        ensures
            text@ == self.text@,
    {
        self.text.as_str()
    }

    pub fn equals(&self, other: &ScopeId) -> (result: bool)
        ensures
            result == (self.text@ == other.text@),
    {
        text::text_equals(self.text.as_str(), other.text.as_str())
    }
}

impl Clone for ScopeId {
    fn clone(&self) -> (result: Self)
        ensures
            result == *self,
    {
        ScopeId { text: self.text.clone() }
    }
}

impl Duplicate for ScopeId {
    fn duplicate(&self) -> (result: Self) {
        self.clone()
    }
}

impl OrderedKey for ScopeId {
    open spec fn key(&self) -> Seq<u8> {
        text::bytes_of(self.text@)
    }

    fn precedes(&self, other: &Self) -> (result: bool) {
        let result = text::text_precedes(self.text.as_str(), other.text.as_str());
        assert(result == text::precedes(self.text@, other.text@));
        assert(self.key() == text::bytes_of(self.text@));
        assert(other.key() == text::bytes_of(other.text@));
        result
    }

    fn matches_key(&self, other: &Self) -> (result: bool) {
        proof {
            text::bytes_injective(self.text@, other.text@);
        }
        text::text_equals(self.text.as_str(), other.text.as_str())
    }
}

/// Name of a remote control.
#[derive(Debug, PartialEq, Eq, PartialOrd, Ord, Hash)]
pub struct ControlId {
    pub text: String,
}

impl ControlId {
    pub open spec fn wf(self) -> bool {
        text::identifier(self.text@)
    }

    pub fn new(value: String) -> (result: Result<Self, StateError>)
        ensures
            result == if text::identifier(value@) {
                Ok::<ControlId, StateError>(ControlId { text: value })
            } else {
                Err(StateError::InvalidIdentifier)
            },
    {
        if text::is_identifier(value.as_str()) {
            Ok(ControlId { text: value })
        } else {
            Err(StateError::InvalidIdentifier)
        }
    }

    pub fn as_str(&self) -> (text: &str)
        ensures
            text@ == self.text@,
    {
        self.text.as_str()
    }
}

impl Clone for ControlId {
    fn clone(&self) -> (result: Self)
        ensures
            result == *self,
    {
        ControlId { text: self.text.clone() }
    }
}

impl Duplicate for ControlId {
    fn duplicate(&self) -> (result: Self) {
        self.clone()
    }
}

impl OrderedKey for ControlId {
    open spec fn key(&self) -> Seq<u8> {
        text::bytes_of(self.text@)
    }

    fn precedes(&self, other: &Self) -> (result: bool) {
        let result = text::text_precedes(self.text.as_str(), other.text.as_str());
        assert(result == text::precedes(self.text@, other.text@));
        assert(self.key() == text::bytes_of(self.text@));
        assert(other.key() == text::bytes_of(other.text@));
        result
    }

    fn matches_key(&self, other: &Self) -> (result: bool) {
        proof {
            text::bytes_injective(self.text@, other.text@);
        }
        text::text_equals(self.text.as_str(), other.text.as_str())
    }
}

/// Part of the house that a control acts on.
#[derive(Debug, PartialEq, Eq, PartialOrd, Ord, Hash)]
pub enum Scope {
    Room(ScopeId),
    Floor(ScopeId),
    House,
}

impl Scope {
    /// Rooms come before floors, floors before the house.
    pub open spec fn kind(self) -> u8 {
        match self {
            Scope::Room(_) => 0,
            Scope::Floor(_) => 1,
            Scope::House => 2,
        }
    }

    /// Text of the scope's name; empty for the house.
    pub open spec fn name(self) -> Seq<char> {
        match self {
            Scope::Room(id) => id.text@,
            Scope::Floor(id) => id.text@,
            Scope::House => Seq::empty(),
        }
    }

    fn kind_of(&self) -> (kind: u8)
        ensures
            kind == self.kind(),
    {
        match self {
            Scope::Room(_) => 0,
            Scope::Floor(_) => 1,
            Scope::House => 2,
        }
    }
}

impl Clone for Scope {
    fn clone(&self) -> (result: Self)
        ensures
            result == *self,
    {
        match self {
            Scope::Room(id) => Scope::Room(id.clone()),
            Scope::Floor(id) => Scope::Floor(id.clone()),
            Scope::House => Scope::House,
        }
    }
}

impl Duplicate for Scope {
    fn duplicate(&self) -> (result: Self) {
        self.clone()
    }
}

proof fn lemma_before_shift(kind: u8, a: Seq<u8>, b: Seq<u8>, i: int)
    requires
        0 <= i,
    ensures
        text::before_from(seq![kind] + a, seq![kind] + b, i + 1) == text::before_from(a, b, i),
    decreases b.len() - i,
{
    let x = seq![kind] + a;
    let y = seq![kind] + b;
    if i < b.len() && i < a.len() {
        assert(x[i + 1] == a[i] && y[i + 1] == b[i]);
        lemma_before_shift(kind, a, b, i + 1);
    }
}

impl OrderedKey for Scope {
    open spec fn key(&self) -> Seq<u8> {
        seq![self.kind()] + text::bytes_of(self.name())
    }

    fn precedes(&self, other: &Self) -> (result: bool) {
        let a = self.kind_of();
        let b = other.kind_of();
        assert(self.key()[0] == a && other.key()[0] == b);
        proof {
            lemma_before_shift(a, text::bytes_of(self.name()), text::bytes_of(other.name()), 0);
        }
        if a != b {
            return a < b;
        }
        match (self, other) {
            (Scope::Room(x), Scope::Room(y)) => x.precedes(y),
            (Scope::Floor(x), Scope::Floor(y)) => x.precedes(y),
            _ => {
                proof {
                    text::before_irreflexive(text::bytes_of(self.name()));
                }
                false
            },
        }
    }

    fn matches_key(&self, other: &Self) -> (result: bool) {
        proof {
            let a = self.key();
            let b = other.key();
            assert(a[0] == self.kind() && b[0] == other.kind());
            assert(a.subrange(1, a.len() as int) =~= text::bytes_of(self.name()));
            assert(b.subrange(1, b.len() as int) =~= text::bytes_of(other.name()));
            text::bytes_injective(self.name(), other.name());
        }
        match (self, other) {
            (Scope::Room(x), Scope::Room(y)) => x.equals(y),
            (Scope::Floor(x), Scope::Floor(y)) => x.equals(y),
            (Scope::House, Scope::House) => true,
            _ => false,
        }
    }
}

/// Where a device stands.
#[derive(Debug, PartialEq, Eq)]
pub struct ScopeMembership {
    pub room: ScopeId,
    pub floor: ScopeId,
}

impl ScopeMembership {
    pub open spec fn within(self, scope: Scope) -> bool {
        match scope {
            Scope::Room(room) => room.text@ == self.room.text@,
            Scope::Floor(floor) => floor.text@ == self.floor.text@,
            Scope::House => true,
        }
    }

    pub fn new(room: ScopeId, floor: ScopeId) -> (result: Self)
        ensures
            result == (ScopeMembership { room, floor }),
    {
        ScopeMembership { room, floor }
    }

    pub fn is_in(&self, scope: &Scope) -> (result: bool)
        ensures
            result == self.within(*scope),
    {
        match scope {
            Scope::Room(room) => room.equals(&self.room),
            Scope::Floor(floor) => floor.equals(&self.floor),
            Scope::House => true,
        }
    }
}

impl Clone for ScopeMembership {
    fn clone(&self) -> (result: Self)
        ensures
            result == *self,
    {
        ScopeMembership { room: self.room.clone(), floor: self.floor.clone() }
    }
}

/// A Gregorian calendar date.
#[derive(Debug, Clone, Copy, PartialEq, Eq, PartialOrd, Ord)]
pub struct LocalDate {
    pub year: i32,
    pub month: u8,
    pub day: u8,
}

pub open spec fn leap_year(year: int) -> bool {
    (year % 4 == 0 && year % 100 != 0) || year % 400 == 0
}

/// Days of a month; zero for a month that does not exist.
pub open spec fn month_length(year: int, month: int) -> int {
    if month == 1 || month == 3 || month == 5 || month == 7 || month == 8 || month == 10 || month
        == 12 {
        31
    } else if month == 4 || month == 6 || month == 9 || month == 11 {
        30
    } else if month == 2 {
        if leap_year(year) {
            29
        } else {
            28
        }
    } else {
        0
    }
}

#[verifier::spinoff_prover]
fn is_leap_year(year: i32) -> (result: bool)
    ensures
        result == leap_year(year as int),
{
    // A multiple of 400 years keeps the remainder and makes it nonnegative.
    let shifted: u64 = (year as i64 + 2_147_484_000) as u64;
    proof {
        let y = year as int;
        assert((y + 2_147_484_000) % 4 == y % 4) by {
            vstd::arithmetic::div_mod::lemma_mod_multiples_vanish(536_871_000, y, 4);
        }
        assert((y + 2_147_484_000) % 100 == y % 100) by {
            vstd::arithmetic::div_mod::lemma_mod_multiples_vanish(21_474_840, y, 100);
        }
        assert((y + 2_147_484_000) % 400 == y % 400) by {
            vstd::arithmetic::div_mod::lemma_mod_multiples_vanish(5_368_710, y, 400);
        }
    }
    (shifted % 4 == 0 && shifted % 100 != 0) || shifted % 400 == 0
}

fn days_in_month(year: i32, month: u8) -> (days: Option<u8>)
    ensures
        days == if month_length(year as int, month as int) > 0 {
            Some(month_length(year as int, month as int) as u8)
        } else {
            None
        },
{
    if month == 1 || month == 3 || month == 5 || month == 7 || month == 8 || month == 10 || month
        == 12 {
        Some(31)
    } else if month == 4 || month == 6 || month == 9 || month == 11 {
        Some(30)
    } else if month == 2 {
        if is_leap_year(year) {
            Some(29)
        } else {
            Some(28)
        }
    } else {
        None
    }
}

impl LocalDate {
    pub open spec fn wf(self) -> bool {
        1 <= self.day <= month_length(self.year as int, self.month as int)
    }

    /// `self` is on or after `other`.
    pub open spec fn not_before(self, other: LocalDate) -> bool {
        self.year > other.year || (self.year == other.year && (self.month > other.month || (
        self.month == other.month && self.day >= other.day)))
    }

    /// The calendar day before; none before the first representable day.
    pub open spec fn day_before(self) -> Result<LocalDate, StateError> {
        if self.day > 1 {
            Ok(LocalDate { year: self.year, month: self.month, day: (self.day - 1) as u8 })
        } else if self.month > 1 {
            Ok(
                LocalDate {
                    year: self.year,
                    month: (self.month - 1) as u8,
                    day: month_length(self.year as int, self.month - 1) as u8,
                },
            )
        } else if self.year > i32::MIN {
            Ok(LocalDate { year: (self.year - 1) as i32, month: 12, day: 31 })
        } else {
            Err(StateError::LocalDateOutOfRange)
        }
    }

    pub fn new(year: i32, month: u8, day: u8) -> (result: Result<Self, StateError>)
        ensures
            result == if (LocalDate { year, month, day }).wf() {
                Ok::<LocalDate, StateError>(LocalDate { year, month, day })
            } else {
                Err(StateError::InvalidLocalDate)
            },
    {
        match days_in_month(year, month) {
            Some(length) => {
                if day == 0 || day > length {
                    return Err(StateError::InvalidLocalDate);
                }
                Ok(LocalDate { year, month, day })
            },
            None => Err(StateError::InvalidLocalDate),
        }
    }

    pub fn year(self) -> (year: i32)
        ensures
            year == self.year,
    {
        self.year
    }

    pub fn month(self) -> (month: u8)
        ensures
            month == self.month,
    {
        self.month
    }

    pub fn day(self) -> (day: u8)
        ensures
            day == self.day,
    {
        self.day
    }

    pub fn is_not_before(self, other: LocalDate) -> (result: bool)
        ensures
            result == self.not_before(other),
    {
        self.year > other.year || (self.year == other.year && (self.month > other.month || (
        self.month == other.month && self.day >= other.day)))
    }

    pub fn previous_day(self) -> (result: Result<Self, StateError>)
        requires
            self.wf(),
        ensures
            result == self.day_before(),
            result matches Ok(date) ==> date.wf() && self.not_before(date) && !date.not_before(
                self,
            ),
    {
        if self.day > 1 {
            return LocalDate::new(self.year, self.month, self.day - 1);
        }
        if self.month > 1 {
            let previous_month: u8 = self.month - 1;
            return match days_in_month(self.year, previous_month) {
                Some(length) => LocalDate::new(self.year, previous_month, length),
                None => Err(StateError::InvalidLocalDate),
            };
        }
        if self.year == i32::MIN {
            return Err(StateError::LocalDateOutOfRange);
        }
        LocalDate::new(self.year - 1, 12, 31)
    }
}

/// Seconds on a clock that never goes back.
#[derive(Debug, Clone, Copy, PartialEq)]
pub struct MonotonicTime {
    pub value: Double,
}

impl MonotonicTime {
    pub open spec fn wf(self) -> bool {
        self.value.finite() && (Double { bits: 0 }).at_most(self.value)
    }

    pub open spec fn checked(seconds: Double) -> Result<MonotonicTime, StateError> {
        if !seconds.finite() {
            Err(StateError::NonFinite)
        } else if seconds.less(Double { bits: 0 }) {
            Err(StateError::NegativeMonotonicTime)
        } else {
            Ok(MonotonicTime { value: seconds })
        }
    }

    pub fn from_seconds(seconds: Double) -> (result: Result<Self, StateError>)
        ensures
            result == MonotonicTime::checked(seconds),
            result matches Ok(time) ==> time.wf(),
    {
        if !seconds.is_finite() {
            return Err(StateError::NonFinite);
        }
        if seconds.lt(Double::from_bits(0)) {
            return Err(StateError::NegativeMonotonicTime);
        }
        Ok(MonotonicTime { value: seconds })
    }

    pub fn seconds(self) -> (seconds: Double)
        ensures
            seconds == self.value,
    {
        self.value
    }

    pub fn as_seconds(self) -> (seconds: Double)
        ensures
            seconds == self.value,
    {
        self.value
    }

    /// `self` is strictly before `other`.
    pub fn is_before(self, other: MonotonicTime) -> (result: bool)
        ensures
            result == self.value.less(other.value),
    {
        self.value.lt(other.value)
    }

    /// `self` is at or after `other`.
    pub fn has_reached(self, other: MonotonicTime) -> (result: bool)
        ensures
            result == other.value.at_most(self.value),
    {
        other.value.le(self.value)
    }
}

/// How long an unfrozen scope takes to return to its curve.
#[derive(Debug, Clone, Copy, PartialEq)]
pub struct ConvergenceDuration {
    pub value: Double,
}

impl ConvergenceDuration {
    pub fn from_seconds(seconds: Double) -> (result: Result<Self, StateError>)
        ensures
            result == if !seconds.finite() {
                Err(StateError::NonFinite)
            } else if seconds.at_most(Double { bits: 0 }) {
                Err(StateError::NonPositiveConvergenceDuration)
            } else {
                Ok::<ConvergenceDuration, StateError>(ConvergenceDuration { value: seconds })
            },
    {
        if !seconds.is_finite() {
            return Err(StateError::NonFinite);
        }
        if seconds.le(Double::from_bits(0)) {
            return Err(StateError::NonPositiveConvergenceDuration);
        }
        Ok(ConvergenceDuration { value: seconds })
    }
}

/// Corrections that a user made to a curve.
#[derive(Debug, Clone, Copy, PartialEq)]
pub struct UserOffsets {
    pub brightness: Double,
    pub color_temperature_kelvin: Double,
}

impl UserOffsets {
    pub open spec fn wf(self) -> bool {
        self.brightness.finite() && self.color_temperature_kelvin.finite()
    }

    pub open spec fn checked(self) -> Result<UserOffsets, StateError> {
        if self.wf() {
            Ok(self)
        } else {
            Err(StateError::NonFinite)
        }
    }

    pub open spec fn moved(self, brightness: Double, kelvin: Double) -> UserOffsets {
        UserOffsets {
            brightness: self.brightness.sum(brightness),
            color_temperature_kelvin: self.color_temperature_kelvin.sum(kelvin),
        }
    }

    pub fn new(brightness: Double, color_temperature_kelvin: Double) -> (result: Result<
        Self,
        StateError,
    >)
        ensures
            result == (UserOffsets { brightness, color_temperature_kelvin }).checked(),
    {
        if !brightness.is_finite() || !color_temperature_kelvin.is_finite() {
            return Err(StateError::NonFinite);
        }
        Ok(UserOffsets { brightness, color_temperature_kelvin })
    }

    pub fn brightness(self) -> (value: Double)
        ensures
            value == self.brightness,
    {
        self.brightness
    }

    pub fn color_temperature_kelvin(self) -> (value: Double)
        ensures
            value == self.color_temperature_kelvin,
    {
        self.color_temperature_kelvin
    }

    fn adjusted(self, brightness: Double, color_temperature_kelvin: Double) -> (result: Result<
        Self,
        StateError,
    >)
        ensures
            result == self.moved(brightness, color_temperature_kelvin).checked(),
    {
        UserOffsets::new(
            self.brightness.plus(brightness),
            self.color_temperature_kelvin.plus(color_temperature_kelvin),
        )
    }

    pub open spec fn none() -> UserOffsets {
        UserOffsets {
            brightness: Double { bits: 0 },
            color_temperature_kelvin: Double { bits: 0 },
        }
    }
}

impl Default for UserOffsets {
    fn default() -> (result: Self)
        ensures
            result == UserOffsets::none(),
    {
        UserOffsets {
            brightness: Double::from_bits(0),
            color_temperature_kelvin: Double::from_bits(0),
        }
    }
}

/// Curve output that a frozen scope holds.
#[derive(Debug, Clone, Copy, PartialEq)]
pub struct CircadianBaseline {
    pub brightness: Brightness,
    pub color_temperature: Kelvin,
}

/// The point `progress` of the way from `from` to `to`.
pub open spec fn blend(from: Double, to: Double, progress: Double) -> Double {
    from.sum(progress.product(to.difference(from)))
}

impl CircadianBaseline {
    pub open spec fn of(point: CurvePoint) -> CircadianBaseline {
        CircadianBaseline {
            brightness: point.brightness,
            color_temperature: point.color_temperature,
        }
    }

    pub open spec fn blended(self, target: CircadianBaseline, progress: Double) -> Result<
        CircadianBaseline,
        StateError,
    > {
        let brightness = Brightness::bounded(
            blend(self.brightness.value, target.brightness.value, progress),
        );
        let kelvin = Kelvin::checked(
            blend(self.color_temperature.value, target.color_temperature.value, progress),
        );
        match (brightness, kelvin) {
            (Err(error), _) => Err(StateError::InvalidValue(error)),
            (_, Err(error)) => Err(StateError::InvalidValue(error)),
            (Ok(brightness), Ok(color_temperature)) => Ok(
                CircadianBaseline { brightness, color_temperature },
            ),
        }
    }

    pub fn from_point(point: CurvePoint) -> (result: CircadianBaseline)
        ensures
            result == CircadianBaseline::of(point),
    {
        CircadianBaseline {
            brightness: point.brightness,
            color_temperature: point.color_temperature,
        }
    }

    fn interpolate(self, target: Self, progress: Double) -> (result: Result<Self, StateError>)
        ensures
            result == self.blended(target, progress),
    {
        let light = self.brightness.value.plus(
            progress.times(target.brightness.value.minus(self.brightness.value)),
        );
        let warmth = self.color_temperature.value.plus(
            progress.times(target.color_temperature.value.minus(self.color_temperature.value)),
        );
        let brightness = match Brightness::clamped(light) {
            Ok(brightness) => brightness,
            Err(error) => return Err(StateError::InvalidValue(error)),
        };
        match Kelvin::new(warmth) {
            Ok(color_temperature) => Ok(CircadianBaseline { brightness, color_temperature }),
            Err(error) => Err(StateError::InvalidValue(error)),
        }
    }
}

#[derive(Debug, Clone, Copy, PartialEq)]
pub enum CurveMode {
    Follow,
    Frozen { baseline: CircadianBaseline },
    /// Already unfrozen: output approaches the live curve without a visible jump.
    Converging {
        from: CircadianBaseline,
        started_at: MonotonicTime,
        duration: ConvergenceDuration,
    },
}

#[derive(Debug, Clone, Copy, PartialEq, Eq, Structural)]
pub enum CurveToggleOutcome {
    Frozen,
    Unfrozen,
}

#[derive(Debug, Clone, Copy, PartialEq, Eq, Structural)]
pub enum DailyResetOutcome {
    NotDue,
    MarkerInitialized,
    Unfroze,
}

impl DailyResetOutcome {
    pub fn durable_state_changed(self) -> (changed: bool)
        ensures
            changed == (self is MarkerInitialized || self is Unfroze),
    {
        match self {
            DailyResetOutcome::NotDue => false,
            DailyResetOutcome::MarkerInitialized => true,
            DailyResetOutcome::Unfroze => true,
        }
    }
}

/// What is remembered of one scope.
#[derive(Debug, Clone, Copy, PartialEq)]
pub struct ScopeState {
    pub on: bool,
    pub offsets: UserOffsets,
    pub mode: CurveMode,
}

impl Duplicate for ScopeState {
    fn duplicate(&self) -> (result: Self) {
        *self
    }
}

impl ScopeState {
    /// What the scope shows before offsets, and whether it has arrived back at
    /// its curve.
    pub open spec fn baseline(self, live: CurvePoint, now: MonotonicTime) -> Result<
        (CircadianBaseline, bool),
        StateError,
    > {
        match self.mode {
            CurveMode::Follow => Ok((CircadianBaseline::of(live), false)),
            CurveMode::Frozen { baseline } => Ok((baseline, false)),
            CurveMode::Converging { from, started_at, duration } => {
                let progress = now.value.difference(started_at.value).quotient(duration.value);
                if now.value.less(started_at.value) {
                    Err(StateError::MonotonicClockRegressed)
                } else if (Double { bits: ONE }).at_most(progress) {
                    Ok((CircadianBaseline::of(live), true))
                } else {
                    match from.blended(CircadianBaseline::of(live), progress) {
                        Ok(baseline) => Ok((baseline, false)),
                        Err(error) => Err(error),
                    }
                }
            },
        }
    }

    /// The scope once its baseline has been looked at.
    pub open spec fn settled(self, arrived: bool) -> ScopeState {
        ScopeState {
            on: self.on,
            offsets: self.offsets,
            mode: if arrived {
                CurveMode::Follow
            } else {
                self.mode
            },
        }
    }

    /// The light that a baseline gives with this scope's offsets.
    pub open spec fn target_of(self, baseline: CircadianBaseline, range: KelvinRange) -> Result<
        LightTarget,
        StateError,
    > {
        let shifted = baseline.color_temperature.value.sum(self.offsets.color_temperature_kelvin);
        if !self.offsets.brightness.finite() || !baseline.brightness.value.sum(
            self.offsets.brightness,
        ).finite() || !self.offsets.color_temperature_kelvin.finite() || !shifted.finite() {
            Err(StateError::InvalidValue(ValueError::NonFinite))
        } else {
            Ok(
                LightTarget {
                    on: self.on,
                    brightness: Some(
                        Brightness::bounded(
                            baseline.brightness.value.sum(self.offsets.brightness),
                        )->Ok_0,
                    ),
                    color_temperature: Some(Kelvin { value: range.bounded(shifted) }),
                    color: None,
                    transition_ms: None,
                },
            )
        }
    }

    /// The layers that a baseline gives with this scope's offsets.
    pub open spec fn layers_of(self, baseline: CircadianBaseline) -> LayeredLightTarget {
        LayeredLightTarget {
            on: self.on,
            brightness: Some(baseline.brightness.value.sum(self.offsets.brightness)),
            color_temperature_kelvin: Some(
                baseline.color_temperature.value.sum(self.offsets.color_temperature_kelvin),
            ),
            color: None,
            transition_ms: None,
        }
    }

    /// The mode after one toggle.
    pub open spec fn toggled(
        self,
        live: CurvePoint,
        now: MonotonicTime,
        duration: ConvergenceDuration,
    ) -> Result<(CurveMode, CurveToggleOutcome), StateError> {
        match self.mode {
            CurveMode::Follow => Ok(
                (
                    CurveMode::Frozen { baseline: CircadianBaseline::of(live) },
                    CurveToggleOutcome::Frozen,
                ),
            ),
            CurveMode::Frozen { baseline } => Ok(
                (
                    CurveMode::Converging { from: baseline, started_at: now, duration },
                    CurveToggleOutcome::Unfrozen,
                ),
            ),
            CurveMode::Converging { .. } => match self.baseline(live, now) {
                Ok((baseline, _)) => Ok(
                    (CurveMode::Frozen { baseline }, CurveToggleOutcome::Frozen),
                ),
                Err(error) => Err(error),
            },
        }
    }

    /// The scope once it is no longer frozen.
    pub open spec fn unfrozen(self, now: MonotonicTime, duration: ConvergenceDuration) -> ScopeState {
        ScopeState {
            on: self.on,
            offsets: self.offsets,
            mode: match self.mode {
                CurveMode::Frozen { baseline } => CurveMode::Converging {
                    from: baseline,
                    started_at: now,
                    duration,
                },
                other => other,
            },
        }
    }

    /// A scope that is no longer frozen starts out from the light it was frozen at.
    pub proof fn unfreezing_starts_without_a_jump(
        self,
        live: CurvePoint,
        now: MonotonicTime,
        duration: ConvergenceDuration,
    )
        requires
            self.mode is Frozen,
            self.mode->baseline.brightness.wf(),
            self.mode->baseline.color_temperature.wf(),
            live.brightness.wf(),
            live.color_temperature.wf(),
            now.wf(),
            duration.value.finite(),
            (Double { bits: 0 }).less(duration.value),
        ensures
            self.unfrozen(now, duration).baseline(live, now) matches Ok((light, false))
                && light.brightness.value.same(self.mode->baseline.brightness.value)
                && light.color_temperature == self.mode->baseline.color_temperature,
    {
        let from = self.mode->baseline;
        Double::no_time_is_no_part(now.value, duration.value);
        Double::no_step_stays(from.brightness.value, live.brightness.value);
        Double::no_step_stays(from.color_temperature.value, live.color_temperature.value);
    }

    /// A scope that is frozen keeps the light it shows at that moment, whatever its
    /// curve does later.
    pub proof fn freezing_keeps_the_light(
        self,
        live: CurvePoint,
        now: MonotonicTime,
        duration: ConvergenceDuration,
        later_live: CurvePoint,
        later: MonotonicTime,
    )
        requires
            !(self.mode is Frozen),
            self.toggled(live, now, duration) is Ok,
        ensures
            self.toggled(live, now, duration)->Ok_0.1 is Frozen,
            self.baseline(live, now) is Ok,
            (ScopeState { mode: self.toggled(live, now, duration)->Ok_0.0, ..self }).baseline(
                later_live,
                later,
            ) == Ok::<(CircadianBaseline, bool), StateError>(
                (self.baseline(live, now)->Ok_0.0, false),
            ),
    {
    }

    /// Toggling does not change the light at that moment: the target composed right
    /// after it is the one composed before, and only the way back from a frozen curve
    /// may turn one zero into the other.
    pub proof fn toggling_keeps_the_target(
        self,
        live: CurvePoint,
        now: MonotonicTime,
        duration: ConvergenceDuration,
        range: KelvinRange,
    )
        requires
            self.mode matches CurveMode::Frozen { baseline } ==> baseline.brightness.wf()
                && baseline.color_temperature.wf(),
            live.brightness.wf(),
            live.color_temperature.wf(),
            now.wf(),
            duration.value.finite(),
            (Double { bits: 0 }).less(duration.value),
            self.baseline(live, now) is Ok,
            self.target_of(self.baseline(live, now)->Ok_0.0, range) is Ok,
        ensures
            ({
                let before = self.target_of(self.baseline(live, now)->Ok_0.0, range)->Ok_0;
                &&& self.toggled(live, now, duration) matches Ok((mode, outcome))
                &&& (outcome is Unfrozen) == (self.mode is Frozen)
                &&& (ScopeState { mode, ..self }).baseline(live, now) matches Ok((baseline, _))
                &&& (ScopeState { mode, ..self }).target_of(baseline, range) matches Ok(after)
                &&& !(self.mode is Frozen) ==> after == before
                &&& after == (LightTarget { brightness: after.brightness, ..before })
                &&& after.brightness->0.value.same(before.brightness->0.value)
            }),
    {
        if let CurveMode::Frozen { baseline } = self.mode {
            self.unfreezing_starts_without_a_jump(live, now, duration);
            let shown = self.unfrozen(now, duration).baseline(live, now)->Ok_0.0;
            let from = baseline.brightness.value;
            Double::no_time_is_no_part(now.value, duration.value);
            Double::no_step_stays(from, live.brightness.value);
            if from.code() == 0 {
                Double::zeros_sum_alike(shown.brightness.value, from, self.offsets.brightness);
            } else {
                assert(shown.brightness.value == from);
            }
        }
    }

    /// A scope arrives at its curve once the time is over.
    pub proof fn convergence_ends_on_the_curve(
        self,
        live: CurvePoint,
        now: MonotonicTime,
    )
        requires
            self.mode is Converging,
            !now.value.less(self.mode->started_at.value),
            (Double { bits: ONE }).at_most(
                now.value.difference(self.mode->started_at.value).quotient(
                    self.mode->duration.value,
                ),
            ),
        ensures
            self.baseline(live, now) == Ok::<(CircadianBaseline, bool), StateError>(
                (CircadianBaseline::of(live), true),
            ),
            self.settled(true).mode is Follow,
    {
    }

    pub fn new(on: bool) -> (result: Self)
        ensures
            result == (ScopeState { on, offsets: UserOffsets::none(), mode: CurveMode::Follow }),
    {
        ScopeState { on, offsets: UserOffsets::default(), mode: CurveMode::Follow }
    }

    pub fn is_on(&self) -> (on: bool)
        ensures
            on == self.on,
    {
        self.on
    }

    pub fn is_frozen(&self) -> (frozen: bool)
        ensures
            frozen == (self.mode is Frozen),
    {
        matches!(self.mode, CurveMode::Frozen { .. })
    }

    pub fn offsets(&self) -> (offsets: UserOffsets)
        ensures
            offsets == self.offsets,
    {
        self.offsets
    }

    pub fn mode(&self) -> (mode: &CurveMode)
        ensures
            *mode == self.mode,
    {
        &self.mode
    }

    pub fn current_baseline(&self, live_curve: CurvePoint, now: MonotonicTime) -> (result: Result<
        (CircadianBaseline, bool),
        StateError,
    >)
        ensures
            result == self.baseline(live_curve, now),
    {
        let live = CircadianBaseline::from_point(live_curve);
        match self.mode {
            CurveMode::Follow => Ok((live, false)),
            CurveMode::Frozen { baseline } => Ok((baseline, false)),
            CurveMode::Converging { from, started_at, duration } => {
                if now.is_before(started_at) {
                    return Err(StateError::MonotonicClockRegressed);
                }
                let progress = now.value.minus(started_at.value).over(duration.value);
                if Double::from_bits(ONE).le(progress) {
                    Ok((live, true))
                } else {
                    match from.interpolate(live, progress) {
                        Ok(baseline) => Ok((baseline, false)),
                        Err(error) => Err(error),
                    }
                }
            },
        }
    }

    pub fn compose(
        &mut self,
        live_curve: CurvePoint,
        now: MonotonicTime,
        color_temperature_range: KelvinRange,
    ) -> (result: Result<LightTarget, StateError>)
        ensures
            match old(self).baseline(live_curve, now) {
                Err(error) => result == Err::<LightTarget, StateError>(error) && *final(self)
                    == *old(self),
                Ok((baseline, arrived)) => {
                    &&& *final(self) == old(self).settled(arrived)
                    &&& result == old(self).target_of(baseline, color_temperature_range)
                },
            },
    {
        let (baseline, convergence_complete) = match self.current_baseline(live_curve, now) {
            Ok(pair) => pair,
            Err(error) => return Err(error),
        };
        if convergence_complete {
            self.mode = CurveMode::Follow;
        }
        let brightness = match baseline.brightness.with_offset(self.offsets.brightness) {
            Ok(brightness) => brightness,
            Err(error) => return Err(StateError::InvalidValue(error)),
        };
        let color_temperature = match color_temperature_range.with_offset(
            baseline.color_temperature,
            self.offsets.color_temperature_kelvin,
        ) {
            Ok(kelvin) => kelvin,
            Err(error) => return Err(StateError::InvalidValue(error)),
        };
        Ok(
            LightTarget {
                on: self.on,
                brightness: Some(brightness),
                color_temperature: Some(color_temperature),
                color: None,
                transition_ms: None,
            },
        )
    }

    pub fn toggle_curve(
        &mut self,
        live_curve: CurvePoint,
        now: MonotonicTime,
        duration: ConvergenceDuration,
    ) -> (result: Result<CurveToggleOutcome, StateError>)
        ensures
            final(self).on == old(self).on,
            final(self).offsets == old(self).offsets,
            match old(self).toggled(live_curve, now, duration) {
                Ok((mode, outcome)) => final(self).mode == mode && result == Ok::<
                    CurveToggleOutcome,
                    StateError,
                >(outcome),
                Err(error) => final(self).mode == old(self).mode && result == Err::<
                    CurveToggleOutcome,
                    StateError,
                >(error),
            },
    {
        match self.mode {
            CurveMode::Follow => {
                self.mode = CurveMode::Frozen { baseline: CircadianBaseline::from_point(live_curve) };
                Ok(CurveToggleOutcome::Frozen)
            },
            CurveMode::Frozen { baseline } => {
                self.mode = CurveMode::Converging { from: baseline, started_at: now, duration };
                Ok(CurveToggleOutcome::Unfrozen)
            },
            CurveMode::Converging { from: _, started_at: _, duration: _ } => {
                match self.current_baseline(live_curve, now) {
                    Ok((baseline, _)) => {
                        self.mode = CurveMode::Frozen { baseline };
                        Ok(CurveToggleOutcome::Frozen)
                    },
                    Err(error) => Err(error),
                }
            },
        }
    }

    /// Starts the way back to the curve; a scope already on it goes on.
    pub fn begin_unfreeze(&mut self, now: MonotonicTime, duration: ConvergenceDuration)
        ensures
            *final(self) == old(self).unfrozen(now, duration),
    {
        if let CurveMode::Frozen { baseline } = self.mode {
            self.mode = CurveMode::Converging { from: baseline, started_at: now, duration };
        }
    }
}

/// What is remembered of one control.
#[derive(Debug, PartialEq, Eq)]
pub struct ControlState {
    pub selected_scope: Scope,
}

impl Clone for ControlState {
    fn clone(&self) -> (result: Self)
        ensures
            result == *self,
    {
        ControlState { selected_scope: self.selected_scope.clone() }
    }
}

impl Duplicate for ControlState {
    fn duplicate(&self) -> (result: Self) {
        self.clone()
    }
}

impl ControlState {
    pub fn new(selected_scope: Scope) -> (result: Self)
        ensures
            result.selected_scope == selected_scope,
    {
        ControlState { selected_scope }
    }

    pub fn selected_scope(&self) -> (scope: &Scope)
        ensures
            *scope == self.selected_scope,
    {
        &self.selected_scope
    }
}

/// Everything that the automation remembers.
#[derive(Debug, PartialEq)]
pub struct AutomationState {
    pub scopes: SortedMap<Scope, ScopeState>,
    pub controls: SortedMap<ControlId, ControlState>,
    pub last_reset_date: Option<LocalDate>,
}

/// The date of the reset that is due last at a local date and time; none when
/// it cannot be represented.
pub open spec fn scheduled_reset(
    local_date: LocalDate,
    local_time: TimeOfDay,
    reset_time: TimeOfDay,
) -> Result<LocalDate, StateError> {
    if local_time.seconds >= reset_time.seconds {
        Ok(local_date)
    } else {
        local_date.day_before()
    }
}

/// Every scope once none is frozen.
pub open spec fn all_unfrozen(
    scopes: Map<Seq<u8>, ScopeState>,
    now: MonotonicTime,
    duration: ConvergenceDuration,
) -> Map<Seq<u8>, ScopeState> {
    scopes.map_values(|state: ScopeState| state.unfrozen(now, duration))
}

/// The light of `scope` before device bounds, where scopes are as in `scopes`.
pub open spec fn layers_in(
    scopes: Map<Seq<u8>, ScopeState>,
    scope: Scope,
    live_curve: CurvePoint,
    now: MonotonicTime,
) -> Result<LayeredLightTarget, StateError> {
    let state = scopes[scope.key()];
    if !scopes.contains_key(scope.key()) {
        Err(StateError::UnknownScope(scope))
    } else {
        match state.baseline(live_curve, now) {
            Err(error) => Err(error),
            Ok((baseline, _)) => match state.layers_of(baseline).checked() {
                Ok(layers) => Ok(layers),
                Err(error) => Err(StateError::InvalidValue(error)),
            },
        }
    }
}

impl AutomationState {
    /// Every control selects a scope that exists.
    pub open spec fn wf(self) -> bool {
        forall|key: Seq<u8>| #[trigger]
            self.controls@.contains_key(key) ==> self.scopes@.contains_key(
                self.controls@[key].selected_scope.key(),
            )
    }

    /// Only the scopes differ from `other`.
    pub open spec fn same_but_scopes(self, other: AutomationState) -> bool {
        self.controls == other.controls && self.last_reset_date == other.last_reset_date
    }

    pub open spec fn with_scope(self, next: AutomationState, scope: Scope, state: ScopeState) -> bool {
        &&& next.scopes@ == self.scopes@.insert(scope.key(), state)
        &&& next.same_but_scopes(self)
    }

    /// Outcome of an operation that first looks up `scope`.
    pub open spec fn unknown_scope<T>(self, scope: Scope, result: Result<T, StateError>) -> bool {
        !self.scopes@.contains_key(scope.key()) && result == Err::<T, StateError>(
            StateError::UnknownScope(scope),
        )
    }

    pub fn with_last_reset_date(last_reset_date: LocalDate) -> (result: Self)
        ensures
            result.scopes@ == Map::<Seq<u8>, ScopeState>::empty(),
            result.controls@ == Map::<Seq<u8>, ControlState>::empty(),
            result.last_reset_date == Some(last_reset_date),
            result.wf(),
    {
        AutomationState {
            scopes: SortedMap::new(),
            controls: SortedMap::new(),
            last_reset_date: Some(last_reset_date),
        }
    }

    pub fn insert_scope(&mut self, scope: Scope, state: ScopeState) -> (result: Result<
        (),
        StateError,
    >)
        ensures
            match result {
                Ok(()) => !old(self).scopes@.contains_key(scope.key()) && old(self).with_scope(
                    *final(self),
                    scope,
                    state,
                ),
                Err(error) => old(self).scopes@.contains_key(scope.key()) && error
                    == StateError::DuplicateScope(scope) && *final(self) == *old(self),
            },
            old(self).wf() ==> final(self).wf(),
    {
        if self.scopes.contains(&scope) {
            return Err(StateError::DuplicateScope(scope));
        }
        self.scopes.set(scope, state);
        Ok(())
    }

    pub fn scope_state(&self, scope: &Scope) -> (result: Result<&ScopeState, StateError>)
        ensures
            match result {
                Ok(state) => self.scopes@.contains_key(scope.key()) && *state
                    == self.scopes@[scope.key()],
                Err(error) => !self.scopes@.contains_key(scope.key()) && error
                    == StateError::UnknownScope(*scope),
            },
    {
        match self.scopes.get(scope) {
            Some(state) => Ok(state),
            None => Err(StateError::UnknownScope(scope.clone())),
        }
    }

    /// The scopes in ascending order.
    pub fn scope_states(&self) -> (states: Vec<(&Scope, &ScopeState)>)
        ensures
            states@.len() == self.scopes.pairs().len(),
            forall|i: int|
                0 <= i < states@.len() ==> *(#[trigger] states@[i]).0 == self.scopes.pairs()[i].0
                    && *states@[i].1 == self.scopes.pairs()[i].1,
    {
        let mut states: Vec<(&Scope, &ScopeState)> = Vec::new();
        let mut i: usize = 0;
        while i < self.scopes.len()
            invariant
                i <= self.scopes.pairs().len(),
                states@.len() == i,
                forall|j: int|
                    0 <= j < i ==> *(#[trigger] states@[j]).0 == self.scopes.pairs()[j].0
                        && *states@[j].1 == self.scopes.pairs()[j].1,
            decreases self.scopes.pairs().len() - i,
        {
            states.push((self.scopes.key_at(i), self.scopes.value_at(i)));
            i = i + 1;
        }
        states
    }

    pub fn insert_control(&mut self, control_id: ControlId, state: ControlState) -> (result: Result<
        (),
        StateError,
    >)
        ensures
            match result {
                Ok(()) => {
                    &&& old(self).scopes@.contains_key(state.selected_scope.key())
                    &&& !old(self).controls@.contains_key(control_id.key())
                    &&& final(self).scopes == old(self).scopes
                    &&& final(self).last_reset_date == old(self).last_reset_date
                    &&& final(self).controls@ == old(self).controls@.insert(control_id.key(), state)
                },
                Err(error) => *final(self) == *old(self) && if old(self).scopes@.contains_key(
                    state.selected_scope.key(),
                ) {
                    old(self).controls@.contains_key(control_id.key()) && error
                        == StateError::DuplicateControl(control_id)
                } else {
                    error == StateError::UnknownScope(state.selected_scope)
                },
            },
            old(self).wf() ==> final(self).wf(),
    {
        if !self.scopes.contains(&state.selected_scope) {
            return Err(StateError::UnknownScope(state.selected_scope));
        }
        if self.controls.contains(&control_id) {
            return Err(StateError::DuplicateControl(control_id));
        }
        self.controls.set(control_id, state);
        Ok(())
    }

    pub fn control_state(&self, control_id: &ControlId) -> (result: Result<
        &ControlState,
        StateError,
    >)
        ensures
            match result {
                Ok(state) => self.controls@.contains_key(control_id.key()) && *state
                    == self.controls@[control_id.key()],
                Err(error) => !self.controls@.contains_key(control_id.key()) && error
                    == StateError::UnknownControl(*control_id),
            },
    {
        match self.controls.get(control_id) {
            Some(state) => Ok(state),
            None => Err(StateError::UnknownControl(control_id.clone())),
        }
    }

    /// The controls in ascending order.
    pub fn control_states(&self) -> (states: Vec<(&ControlId, &ControlState)>)
        ensures
            states@.len() == self.controls.pairs().len(),
            forall|i: int|
                0 <= i < states@.len() ==> *(#[trigger] states@[i]).0 == self.controls.pairs()[i].0
                    && *states@[i].1 == self.controls.pairs()[i].1,
    {
        let mut states: Vec<(&ControlId, &ControlState)> = Vec::new();
        let mut i: usize = 0;
        while i < self.controls.len()
            invariant
                i <= self.controls.pairs().len(),
                states@.len() == i,
                forall|j: int|
                    0 <= j < i ==> *(#[trigger] states@[j]).0 == self.controls.pairs()[j].0
                        && *states@[j].1 == self.controls.pairs()[j].1,
            decreases self.controls.pairs().len() - i,
        {
            states.push((self.controls.key_at(i), self.controls.value_at(i)));
            i = i + 1;
        }
        states
    }

    pub fn select_control_scope(&mut self, control_id: &ControlId, scope: Scope) -> (result: Result<
        (),
        StateError,
    >)
        ensures
            match result {
                Ok(()) => {
                    &&& old(self).scopes@.contains_key(scope.key())
                    &&& old(self).controls@.contains_key(control_id.key())
                    &&& final(self).scopes == old(self).scopes
                    &&& final(self).last_reset_date == old(self).last_reset_date
                    &&& final(self).controls@ == old(self).controls@.insert(
                        control_id.key(),
                        ControlState { selected_scope: scope },
                    )
                },
                Err(error) => *final(self) == *old(self) && if old(self).scopes@.contains_key(
                    scope.key(),
                ) {
                    !old(self).controls@.contains_key(control_id.key()) && error
                        == StateError::UnknownControl(*control_id)
                } else {
                    error == StateError::UnknownScope(scope)
                },
            },
            old(self).wf() ==> final(self).wf(),
    {
        if !self.scopes.contains(&scope) {
            return Err(StateError::UnknownScope(scope));
        }
        match self.controls.position(control_id) {
            Some(i) => {
                self.controls.set_at(i, ControlState { selected_scope: scope });
                Ok(())
            },
            None => Err(StateError::UnknownControl(control_id.clone())),
        }
    }

    fn selected_scope(&self, control_id: &ControlId) -> (result: Result<Scope, StateError>)
        ensures
            match result {
                Ok(scope) => self.controls@.contains_key(control_id.key()) && scope
                    == self.controls@[control_id.key()].selected_scope,
                Err(error) => !self.controls@.contains_key(control_id.key()) && error
                    == StateError::UnknownControl(*control_id),
            },
    {
        match self.control_state(control_id) {
            Ok(state) => Ok(state.selected_scope.clone()),
            Err(error) => Err(error),
        }
    }

    pub fn set_scope_power(&mut self, scope: &Scope, on: bool) -> (result: Result<(), StateError>)
        ensures
            match result {
                Ok(()) => old(self).scopes@.contains_key(scope.key()) && old(self).with_scope(
                    *final(self),
                    *scope,
                    ScopeState { on, ..old(self).scopes@[scope.key()] },
                ),
                Err(_) => old(self).unknown_scope(*scope, result) && *final(self) == *old(self),
            },
            old(self).wf() ==> final(self).wf(),
    {
        match self.scopes.position(scope) {
            Some(i) => {
                let mut state = *self.scopes.value_at(i);
                state.on = on;
                self.scopes.set_at(i, state);
                Ok(())
            },
            None => Err(StateError::UnknownScope(scope.clone())),
        }
    }

    pub fn toggle_scope_power(&mut self, scope: &Scope) -> (result: Result<bool, StateError>)
        ensures
            match result {
                Ok(on) => {
                    &&& old(self).scopes@.contains_key(scope.key())
                    &&& on == !old(self).scopes@[scope.key()].on
                    &&& old(self).with_scope(
                        *final(self),
                        *scope,
                        ScopeState { on, ..old(self).scopes@[scope.key()] },
                    )
                },
                Err(_) => old(self).unknown_scope(*scope, result) && *final(self) == *old(self),
            },
            old(self).wf() ==> final(self).wf(),
    {
        match self.scopes.position(scope) {
            Some(i) => {
                let mut state = *self.scopes.value_at(i);
                state.on = !state.on;
                self.scopes.set_at(i, state);
                Ok(state.on)
            },
            None => Err(StateError::UnknownScope(scope.clone())),
        }
    }

    pub fn toggle_control_power(&mut self, control_id: &ControlId) -> (result: Result<
        bool,
        StateError,
    >)
        ensures
            !old(self).controls@.contains_key(control_id.key()) ==> result == Err::<
                bool,
                StateError,
            >(StateError::UnknownControl(*control_id)) && *final(self) == *old(self),
            old(self).controls@.contains_key(control_id.key()) ==> ({
                let scope = old(self).controls@[control_id.key()].selected_scope;
                match result {
                    Ok(on) => {
                        &&& old(self).scopes@.contains_key(scope.key())
                        &&& on == !old(self).scopes@[scope.key()].on
                        &&& old(self).with_scope(
                            *final(self),
                            scope,
                            ScopeState { on, ..old(self).scopes@[scope.key()] },
                        )
                    },
                    Err(_) => old(self).unknown_scope(scope, result) && *final(self) == *old(self),
                }
            }),
            old(self).wf() ==> final(self).wf(),
    {
        match self.selected_scope(control_id) {
            Ok(scope) => self.toggle_scope_power(&scope),
            Err(error) => Err(error),
        }
    }

    pub fn set_scope_offsets(&mut self, scope: &Scope, offsets: UserOffsets) -> (result: Result<
        (),
        StateError,
    >)
        ensures
            match result {
                Ok(()) => old(self).scopes@.contains_key(scope.key()) && old(self).with_scope(
                    *final(self),
                    *scope,
                    ScopeState { offsets, ..old(self).scopes@[scope.key()] },
                ),
                Err(_) => old(self).unknown_scope(*scope, result) && *final(self) == *old(self),
            },
            old(self).wf() ==> final(self).wf(),
    {
        match self.scopes.position(scope) {
            Some(i) => {
                let mut state = *self.scopes.value_at(i);
                state.offsets = offsets;
                self.scopes.set_at(i, state);
                Ok(())
            },
            None => Err(StateError::UnknownScope(scope.clone())),
        }
    }

    /// What moving the offsets of `scope` does.
    pub open spec fn offsets_moved(
        self,
        next: AutomationState,
        scope: Scope,
        brightness: Double,
        kelvin: Double,
        result: Result<UserOffsets, StateError>,
    ) -> bool {
        let moved = self.scopes@[scope.key()].offsets.moved(brightness, kelvin);
        if !self.scopes@.contains_key(scope.key()) {
            self.unknown_scope(scope, result) && next == self
        } else if moved.wf() {
            result == Ok::<UserOffsets, StateError>(moved) && self.with_scope(
                next,
                scope,
                ScopeState { offsets: moved, ..self.scopes@[scope.key()] },
            )
        } else {
            result == Err::<UserOffsets, StateError>(StateError::NonFinite) && next == self
        }
    }

    pub fn adjust_scope_offsets(
        &mut self,
        scope: &Scope,
        brightness: Double,
        color_temperature_kelvin: Double,
    ) -> (result: Result<UserOffsets, StateError>)
        ensures
            old(self).offsets_moved(
                *final(self),
                *scope,
                brightness,
                color_temperature_kelvin,
                result,
            ),
            old(self).wf() ==> final(self).wf(),
    {
        match self.scopes.position(scope) {
            Some(i) => {
                let mut state = *self.scopes.value_at(i);
                match state.offsets.adjusted(brightness, color_temperature_kelvin) {
                    Ok(offsets) => {
                        state.offsets = offsets;
                        self.scopes.set_at(i, state);
                        Ok(offsets)
                    },
                    Err(error) => Err(error),
                }
            },
            None => Err(StateError::UnknownScope(scope.clone())),
        }
    }

    pub fn adjust_control_offsets(
        &mut self,
        control_id: &ControlId,
        brightness: Double,
        color_temperature_kelvin: Double,
    ) -> (result: Result<UserOffsets, StateError>)
        ensures
            !old(self).controls@.contains_key(control_id.key()) ==> result == Err::<
                UserOffsets,
                StateError,
            >(StateError::UnknownControl(*control_id)) && *final(self) == *old(self),
            old(self).controls@.contains_key(control_id.key()) ==> old(self).offsets_moved(
                *final(self),
                old(self).controls@[control_id.key()].selected_scope,
                brightness,
                color_temperature_kelvin,
                result,
            ),
            old(self).wf() ==> final(self).wf(),
    {
        match self.selected_scope(control_id) {
            Ok(scope) => self.adjust_scope_offsets(&scope, brightness, color_temperature_kelvin),
            Err(error) => Err(error),
        }
    }

    /// What composing the light of `scope` does.
    pub open spec fn target_composed(
        self,
        next: AutomationState,
        scope: Scope,
        live_curve: CurvePoint,
        now: MonotonicTime,
        range: KelvinRange,
        result: Result<LightTarget, StateError>,
    ) -> bool {
        let state = self.scopes@[scope.key()];
        if !self.scopes@.contains_key(scope.key()) {
            self.unknown_scope(scope, result) && next == self
        } else {
            match state.baseline(live_curve, now) {
                Err(error) => result == Err::<LightTarget, StateError>(error) && self.with_scope(
                    next,
                    scope,
                    state,
                ),
                Ok((baseline, arrived)) => result == state.target_of(baseline, range)
                    && self.with_scope(next, scope, state.settled(arrived)),
            }
        }
    }

    pub fn compose_scope_target(
        &mut self,
        scope: &Scope,
        live_curve: CurvePoint,
        now: MonotonicTime,
        color_temperature_range: KelvinRange,
    ) -> (result: Result<LightTarget, StateError>)
        ensures
            old(self).target_composed(
                *final(self),
                *scope,
                live_curve,
                now,
                color_temperature_range,
                result,
            ),
            old(self).wf() ==> final(self).wf(),
    {
        match self.scopes.position(scope) {
            Some(i) => {
                let mut state = *self.scopes.value_at(i);
                let result = state.compose(live_curve, now, color_temperature_range);
                self.scopes.set_at(i, state);
                result
            },
            None => Err(StateError::UnknownScope(scope.clone())),
        }
    }

    pub fn compose_control_target(
        &mut self,
        control_id: &ControlId,
        live_curve: CurvePoint,
        now: MonotonicTime,
        color_temperature_range: KelvinRange,
    ) -> (result: Result<LightTarget, StateError>)
        ensures
            !old(self).controls@.contains_key(control_id.key()) ==> result == Err::<
                LightTarget,
                StateError,
            >(StateError::UnknownControl(*control_id)) && *final(self) == *old(self),
            old(self).controls@.contains_key(control_id.key()) ==> old(self).target_composed(
                *final(self),
                old(self).controls@[control_id.key()].selected_scope,
                live_curve,
                now,
                color_temperature_range,
                result,
            ),
            old(self).wf() ==> final(self).wf(),
    {
        match self.selected_scope(control_id) {
            Ok(scope) => self.compose_scope_target(
                &scope,
                live_curve,
                now,
                color_temperature_range,
            ),
            Err(error) => Err(error),
        }
    }

    /// The light of `scope` before device bounds.
    pub open spec fn layers(self, scope: Scope, live_curve: CurvePoint, now: MonotonicTime) -> Result<
        LayeredLightTarget,
        StateError,
    > {
        layers_in(self.scopes@, scope, live_curve, now)
    }

    pub fn compose_scope_layers(
        &self,
        scope: &Scope,
        live_curve: CurvePoint,
        now: MonotonicTime,
    ) -> (result: Result<LayeredLightTarget, StateError>)
        ensures
            result == self.layers(*scope, live_curve, now),
            result matches Ok(layers) ==> layers.wf(),
    {
        match self.scopes.get(scope) {
            Some(state) => {
                let (baseline, _) = match state.current_baseline(live_curve, now) {
                    Ok(pair) => pair,
                    Err(error) => return Err(error),
                };
                match LayeredLightTarget::new(
                    state.on,
                    Some(baseline.brightness.value.plus(state.offsets.brightness)),
                    Some(
                        baseline.color_temperature.value.plus(
                            state.offsets.color_temperature_kelvin,
                        ),
                    ),
                    None,
                    None,
                ) {
                    Ok(layers) => Ok(layers),
                    Err(error) => Err(StateError::InvalidValue(error)),
                }
            },
            None => Err(StateError::UnknownScope(scope.clone())),
        }
    }

    /// What toggling the curve of `scope` does.
    pub open spec fn curve_toggled(
        self,
        next: AutomationState,
        scope: Scope,
        live_curve: CurvePoint,
        now: MonotonicTime,
        duration: ConvergenceDuration,
        result: Result<CurveToggleOutcome, StateError>,
    ) -> bool {
        let state = self.scopes@[scope.key()];
        if !self.scopes@.contains_key(scope.key()) {
            self.unknown_scope(scope, result) && next == self
        } else {
            match state.toggled(live_curve, now, duration) {
                Ok((mode, outcome)) => result == Ok::<CurveToggleOutcome, StateError>(outcome)
                    && self.with_scope(next, scope, ScopeState { mode, ..state }),
                Err(error) => result == Err::<CurveToggleOutcome, StateError>(error) && next
                    == self,
            }
        }
    }

    pub fn toggle_scope_curve(
        &mut self,
        scope: &Scope,
        live_curve: CurvePoint,
        now: MonotonicTime,
        convergence_duration: ConvergenceDuration,
    ) -> (result: Result<CurveToggleOutcome, StateError>)
        ensures
            old(self).curve_toggled(
                *final(self),
                *scope,
                live_curve,
                now,
                convergence_duration,
                result,
            ),
            old(self).wf() ==> final(self).wf(),
    {
        match self.scopes.position(scope) {
            Some(i) => {
                let mut state = *self.scopes.value_at(i);
                match state.toggle_curve(live_curve, now, convergence_duration) {
                    Ok(outcome) => {
                        self.scopes.set_at(i, state);
                        Ok(outcome)
                    },
                    Err(error) => Err(error),
                }
            },
            None => Err(StateError::UnknownScope(scope.clone())),
        }
    }

    pub fn toggle_control_curve(
        &mut self,
        control_id: &ControlId,
        live_curve: CurvePoint,
        now: MonotonicTime,
        convergence_duration: ConvergenceDuration,
    ) -> (result: Result<CurveToggleOutcome, StateError>)
        ensures
            !old(self).controls@.contains_key(control_id.key()) ==> result == Err::<
                CurveToggleOutcome,
                StateError,
            >(StateError::UnknownControl(*control_id)) && *final(self) == *old(self),
            old(self).controls@.contains_key(control_id.key()) ==> old(self).curve_toggled(
                *final(self),
                old(self).controls@[control_id.key()].selected_scope,
                live_curve,
                now,
                convergence_duration,
                result,
            ),
            old(self).wf() ==> final(self).wf(),
    {
        match self.selected_scope(control_id) {
            Ok(scope) => self.toggle_scope_curve(&scope, live_curve, now, convergence_duration),
            Err(error) => Err(error),
        }
    }

    /// Holds what `scope` shows now.
    pub fn freeze_scope_curve(
        &mut self,
        scope: &Scope,
        live_curve: CurvePoint,
        now: MonotonicTime,
    ) -> (result: Result<(), StateError>)
        ensures
            !old(self).scopes@.contains_key(scope.key()) ==> old(self).unknown_scope(
                *scope,
                result,
            ) && *final(self) == *old(self),
            old(self).scopes@.contains_key(scope.key()) ==> ({
                let state = old(self).scopes@[scope.key()];
                match state.baseline(live_curve, now) {
                    Ok((baseline, _)) => result is Ok && old(self).with_scope(
                        *final(self),
                        *scope,
                        ScopeState { mode: CurveMode::Frozen { baseline }, ..state },
                    ),
                    Err(error) => result == Err::<(), StateError>(error) && *final(self)
                        == *old(self),
                }
            }),
            old(self).wf() ==> final(self).wf(),
    {
        match self.scopes.position(scope) {
            Some(i) => {
                let mut state = *self.scopes.value_at(i);
                match state.current_baseline(live_curve, now) {
                    Ok((baseline, _)) => {
                        state.mode = CurveMode::Frozen { baseline };
                        self.scopes.set_at(i, state);
                        Ok(())
                    },
                    Err(error) => Err(error),
                }
            },
            None => Err(StateError::UnknownScope(scope.clone())),
        }
    }

    /// Starts the way of `scope` back to its curve.
    pub fn unfreeze_scope_curve(
        &mut self,
        scope: &Scope,
        now: MonotonicTime,
        convergence_duration: ConvergenceDuration,
    ) -> (result: Result<(), StateError>)
        ensures
            match result {
                Ok(()) => old(self).scopes@.contains_key(scope.key()) && old(self).with_scope(
                    *final(self),
                    *scope,
                    old(self).scopes@[scope.key()].unfrozen(now, convergence_duration),
                ),
                Err(_) => old(self).unknown_scope(*scope, result) && *final(self) == *old(self),
            },
            old(self).wf() ==> final(self).wf(),
    {
        match self.scopes.position(scope) {
            Some(i) => {
                let mut state = *self.scopes.value_at(i);
                state.begin_unfreeze(now, convergence_duration);
                self.scopes.set_at(i, state);
                Ok(())
            },
            None => Err(StateError::UnknownScope(scope.clone())),
        }
    }

    pub fn last_reset_date(&self) -> (date: Option<LocalDate>)
        ensures
            date == self.last_reset_date,
    {
        self.last_reset_date
    }

    /// Unfreezes every scope once per scheduled reset.
    ///
    /// Before the first reset time of a new installation only the marker is
    /// set, so that the boundary is durable before anything can freeze.
    pub fn reset_circadian_if_due(
        &mut self,
        local_date: LocalDate,
        local_time: TimeOfDay,
        reset_time: TimeOfDay,
        monotonic_now: MonotonicTime,
        convergence_duration: ConvergenceDuration,
    ) -> (result: Result<DailyResetOutcome, StateError>)
        requires
            local_date.wf(),
        ensures
            final(self).controls == old(self).controls,
            match scheduled_reset(local_date, local_time, reset_time) {
                Err(error) => result == Err::<DailyResetOutcome, StateError>(error)
                    && *final(self) == *old(self),
                Ok(scheduled) => match result {
                    Ok(DailyResetOutcome::NotDue) => {
                        &&& old(self).last_reset_date matches Some(last) && last.not_before(
                            scheduled,
                        )
                        &&& *final(self) == *old(self)
                    },
                    Ok(DailyResetOutcome::MarkerInitialized) => {
                        &&& local_time.seconds < reset_time.seconds
                        &&& old(self).last_reset_date is None
                        &&& final(self).last_reset_date == Some(scheduled)
                        &&& final(self).scopes == old(self).scopes
                    },
                    Ok(DailyResetOutcome::Unfroze) => {
                        &&& local_time.seconds >= reset_time.seconds
                            || old(self).last_reset_date is Some
                        &&& old(self).last_reset_date matches Some(last) ==> !last.not_before(
                            scheduled,
                        )
                        &&& final(self).last_reset_date == Some(scheduled)
                        &&& final(self).scopes@ == all_unfrozen(
                            old(self).scopes@,
                            monotonic_now,
                            convergence_duration,
                        )
                    },
                    Err(_) => false,
                },
            },
            old(self).wf() ==> final(self).wf(),
    {
        let scheduled_date = if local_time.seconds >= reset_time.seconds {
            local_date
        } else {
            let previous_date = match local_date.previous_day() {
                Ok(date) => date,
                Err(error) => return Err(error),
            };
            if self.last_reset_date.is_none() {
                self.last_reset_date = Some(previous_date);
                return Ok(DailyResetOutcome::MarkerInitialized);
            }
            previous_date
        };
        if let Some(last) = self.last_reset_date {
            if last.is_not_before(scheduled_date) {
                return Ok(DailyResetOutcome::NotDue);
            }
        }
        self.unfreeze_all(monotonic_now, convergence_duration);
        self.last_reset_date = Some(scheduled_date);
        Ok(DailyResetOutcome::Unfroze)
    }

    fn unfreeze_all(&mut self, now: MonotonicTime, duration: ConvergenceDuration)
        ensures
            final(self).controls == old(self).controls,
            final(self).last_reset_date == old(self).last_reset_date,
            final(self).scopes@ == all_unfrozen(old(self).scopes@, now, duration),
    {
        let ghost before = self.scopes.pairs();
        let ghost whole = *self;
        let count: usize = self.scopes.len();
        let mut i: usize = 0;
        while i < count
            invariant
                i <= count,
                count == before.len(),
                crate::ordered::ascending(before),
                before == whole.scopes.pairs(),
                self.controls == whole.controls,
                self.last_reset_date == whole.last_reset_date,
                self.scopes.pairs().len() == count,
                forall|j: int|
                    0 <= j < count ==> #[trigger] self.scopes.pairs()[j] == (
                        before[j].0,
                        if j < i {
                            before[j].1.unfrozen(now, duration)
                        } else {
                            before[j].1
                        },
                    ),
            decreases count - i,
        {
            let mut state = *self.scopes.value_at(i);
            state.begin_unfreeze(now, duration);
            self.scopes.set_at(i, state);
            i = i + 1;
        }
        proof {
            lemma_mapped_values(
                before,
                self.scopes.pairs(),
                |state: ScopeState| state.unfrozen(now, duration),
            );
        }
    }
}

/// Mapping the values of ascending pairs maps the values of their map.
proof fn lemma_mapped_values(
    before: Seq<(Scope, ScopeState)>,
    after: Seq<(Scope, ScopeState)>,
    change: spec_fn(ScopeState) -> ScopeState,
)
    requires
        crate::ordered::ascending(before),
        after.len() == before.len(),
        forall|j: int|
            0 <= j < before.len() ==> #[trigger] after[j] == (before[j].0, change(before[j].1)),
    ensures
        crate::ordered::map_of(after) == crate::ordered::map_of(before).map_values(change),
{
    assert(crate::ordered::ascending(after)) by {
        assert forall|i: int, j: int| 0 <= i < j < after.len() implies text::before(
            (#[trigger] after[i]).0.key(),
            (#[trigger] after[j]).0.key(),
        ) by {
            assert(after[i].0 == before[i].0 && after[j].0 == before[j].0);
        }
    }
    let left = crate::ordered::map_of(after);
    let right = crate::ordered::map_of(before).map_values(change);
    assert forall|key: Seq<u8>| #[trigger] left.contains_key(key) == right.contains_key(key) by {
        if crate::ordered::has_key(after, key) {
            let j = crate::ordered::index_of(after, key);
            assert(after[j].0 == before[j].0);
            crate::ordered::pair_is_mapped(before, j);
        }
        if crate::ordered::has_key(before, key) {
            let j = crate::ordered::index_of(before, key);
            assert(after[j].0 == before[j].0);
            crate::ordered::pair_is_mapped(after, j);
        }
    }
    assert forall|key: Seq<u8>| #[trigger] left.contains_key(key) implies left[key]
        == right[key] by {
        let j = crate::ordered::index_of(after, key);
        crate::ordered::pair_is_mapped(after, j);
        assert(after[j].0 == before[j].0);
        crate::ordered::pair_is_mapped(before, j);
    }
    assert(left =~= right);
}

impl Default for AutomationState {
    fn default() -> (result: Self)
        ensures
            result.scopes@ == Map::<Seq<u8>, ScopeState>::empty(),
            result.controls@ == Map::<Seq<u8>, ControlState>::empty(),
            result.last_reset_date is None,
            result.wf(),
    {
        AutomationState { scopes: SortedMap::new(), controls: SortedMap::new(), last_reset_date: None }
    }
}

impl AutomationState {
    /// An exact copy.
    pub fn copied(&self) -> (result: Self)
        ensures
            result.scopes.pairs() == self.scopes.pairs(),
            result.controls.pairs() == self.controls.pairs(),
            result.last_reset_date == self.last_reset_date,
    {
        AutomationState {
            scopes: self.scopes.copied(),
            controls: self.controls.copied(),
            last_reset_date: self.last_reset_date,
        }
    }
}

impl Clone for AutomationState {
    fn clone(&self) -> (result: Self)
        ensures
            result.scopes.pairs() == self.scopes.pairs(),
            result.controls.pairs() == self.controls.pairs(),
            result.last_reset_date == self.last_reset_date,
    {
        self.copied()
    }
}

/// The part of a curve mode that outlives the process.
#[derive(Debug, Clone, Copy, PartialEq)]
pub enum PersistedCurveMode {
    Follow,
    Frozen { baseline: CircadianBaseline },
}

impl CurveMode {
    /// A converging scope is stored as one that follows its curve.
    pub open spec fn persisted(self) -> PersistedCurveMode {
        match self {
            CurveMode::Frozen { baseline } => PersistedCurveMode::Frozen { baseline },
            _ => PersistedCurveMode::Follow,
        }
    }
}

impl PersistedCurveMode {
    pub open spec fn restored(self) -> CurveMode {
        match self {
            PersistedCurveMode::Frozen { baseline } => CurveMode::Frozen { baseline },
            PersistedCurveMode::Follow => CurveMode::Follow,
        }
    }
}

/// Stored form of one scope.
#[derive(Debug, PartialEq)]
pub struct ScopeSnapshot {
    pub scope: Scope,
    pub on: bool,
    pub offsets: UserOffsets,
    pub curve_mode: PersistedCurveMode,
}

impl ScopeSnapshot {
    pub open spec fn of(scope: Scope, state: ScopeState) -> ScopeSnapshot {
        ScopeSnapshot {
            scope,
            on: state.on,
            offsets: state.offsets,
            curve_mode: state.mode.persisted(),
        }
    }

    pub open spec fn state(self) -> ScopeState {
        ScopeState { on: self.on, offsets: self.offsets, mode: self.curve_mode.restored() }
    }

    pub fn scope(&self) -> (scope: &Scope)
        ensures
            *scope == self.scope,
    {
        &self.scope
    }

    /// The state that this snapshot stands for.
    pub fn to_state(&self) -> (state: ScopeState)
        ensures
            state == self.state(),
    {
        ScopeState {
            on: self.on,
            offsets: self.offsets,
            mode: match self.curve_mode {
                PersistedCurveMode::Follow => CurveMode::Follow,
                PersistedCurveMode::Frozen { baseline } => CurveMode::Frozen { baseline },
            },
        }
    }
}

impl Clone for ScopeSnapshot {
    fn clone(&self) -> (result: Self)
        ensures
            result == *self,
    {
        ScopeSnapshot {
            scope: self.scope.clone(),
            on: self.on,
            offsets: self.offsets,
            curve_mode: self.curve_mode,
        }
    }
}

/// Stored form of one control.
#[derive(Debug, PartialEq, Eq)]
pub struct ControlSnapshot {
    pub id: ControlId,
    pub selected_scope: Scope,
}

impl ControlSnapshot {
    pub fn id(&self) -> (id: &ControlId)
        ensures
            *id == self.id,
    {
        &self.id
    }

    pub fn selected_scope(&self) -> (scope: &Scope)
        ensures
            *scope == self.selected_scope,
    {
        &self.selected_scope
    }
}

impl Clone for ControlSnapshot {
    fn clone(&self) -> (result: Self)
        ensures
            result == *self,
    {
        ControlSnapshot { id: self.id.clone(), selected_scope: self.selected_scope.clone() }
    }
}

/// Stored form of the whole state.
#[derive(Debug, PartialEq)]
pub struct AutomationSnapshot {
    pub scopes: Vec<ScopeSnapshot>,
    pub controls: Vec<ControlSnapshot>,
    pub last_reset_date: Option<LocalDate>,
}

/// Parts of a stored state.
#[derive(Debug, PartialEq)]
pub struct AutomationSnapshotParts {
    pub scopes: Vec<ScopeSnapshot>,
    pub controls: Vec<ControlSnapshot>,
    pub last_reset_date: Option<LocalDate>,
}

impl AutomationSnapshot {
    pub fn from_parts(parts: AutomationSnapshotParts) -> (result: Self)
        ensures
            result.scopes == parts.scopes,
            result.controls == parts.controls,
            result.last_reset_date == parts.last_reset_date,
    {
        AutomationSnapshot {
            scopes: parts.scopes,
            controls: parts.controls,
            last_reset_date: parts.last_reset_date,
        }
    }

    pub fn into_parts(self) -> (result: AutomationSnapshotParts)
        ensures
            result.scopes == self.scopes,
            result.controls == self.controls,
            result.last_reset_date == self.last_reset_date,
    {
        AutomationSnapshotParts {
            scopes: self.scopes,
            controls: self.controls,
            last_reset_date: self.last_reset_date,
        }
    }
}

/// No scope occurs twice among the first `n`.
pub open spec fn scopes_differ(scopes: Seq<ScopeSnapshot>, n: int) -> bool {
    forall|i: int, j: int|
        0 <= i < j < n ==> (#[trigger] scopes[i]).scope.key() != (#[trigger] scopes[j]).scope.key()
}

/// One of the first `n` scopes has this key.
pub open spec fn scope_listed(scopes: Seq<ScopeSnapshot>, n: int, key: Seq<u8>) -> bool {
    exists|i: int| 0 <= i < n && (#[trigger] scopes[i]).scope.key() == key
}

/// No control occurs twice among the first `n`.
pub open spec fn controls_differ(controls: Seq<ControlSnapshot>, n: int) -> bool {
    forall|i: int, j: int|
        0 <= i < j < n ==> (#[trigger] controls[i]).id.key() != (#[trigger] controls[j]).id.key()
}

pub open spec fn control_listed(controls: Seq<ControlSnapshot>, n: int, key: Seq<u8>) -> bool {
    exists|i: int| 0 <= i < n && (#[trigger] controls[i]).id.key() == key
}

/// The scope map holds exactly the first `n` stored scopes.
pub open spec fn scopes_hold(
    map: Map<Seq<u8>, ScopeState>,
    scopes: Seq<ScopeSnapshot>,
    n: int,
) -> bool {
    &&& forall|key: Seq<u8>| #[trigger] map.contains_key(key) <==> scope_listed(scopes, n, key)
    &&& forall|i: int| 0 <= i < n ==> map[(#[trigger] scopes[i]).scope.key()] == scopes[i].state()
}

/// The control map holds exactly the first `n` stored controls.
pub open spec fn controls_hold(
    map: Map<Seq<u8>, ControlState>,
    controls: Seq<ControlSnapshot>,
    n: int,
) -> bool {
    &&& forall|key: Seq<u8>| #[trigger] map.contains_key(key) <==> control_listed(controls, n, key)
    &&& forall|i: int|
        0 <= i < n ==> map[(#[trigger] controls[i]).id.key()].selected_scope
            == controls[i].selected_scope
}

/// The first `n` controls select scopes that are listed.
pub open spec fn controls_known(snapshot: AutomationSnapshot, n: int) -> bool {
    forall|i: int|
        0 <= i < n ==> scope_listed(
            snapshot.scopes@,
            snapshot.scopes@.len() as int,
            (#[trigger] snapshot.controls@[i]).selected_scope.key(),
        )
}

impl AutomationState {
    /// `snapshot` is the stored form of this state, in ascending order.
    pub open spec fn stored_as(self, snapshot: AutomationSnapshot) -> bool {
        &&& snapshot.last_reset_date == self.last_reset_date
        &&& snapshot.scopes@.len() == self.scopes.pairs().len()
        &&& forall|i: int|
            0 <= i < snapshot.scopes@.len() ==> #[trigger] snapshot.scopes@[i]
                == ScopeSnapshot::of(self.scopes.pairs()[i].0, self.scopes.pairs()[i].1)
        &&& snapshot.controls@.len() == self.controls.pairs().len()
        &&& forall|i: int|
            0 <= i < snapshot.controls@.len() ==> (#[trigger] snapshot.controls@[i]).id
                == self.controls.pairs()[i].0 && snapshot.controls@[i].selected_scope
                == self.controls.pairs()[i].1.selected_scope
    }

    /// What restoring `snapshot` gives: the state it lists, or the first entry
    /// that repeats or names an unlisted scope.
    pub open spec fn restored_from(
        snapshot: AutomationSnapshot,
        result: Result<AutomationState, StateError>,
    ) -> bool {
        let scopes = snapshot.scopes@;
        let controls = snapshot.controls@;
        match result {
            Ok(state) => {
                &&& scopes_differ(scopes, scopes.len() as int)
                &&& controls_differ(controls, controls.len() as int)
                &&& controls_known(snapshot, controls.len() as int)
                &&& scopes_hold(state.scopes@, scopes, scopes.len() as int)
                &&& controls_hold(state.controls@, controls, controls.len() as int)
                &&& state.last_reset_date == snapshot.last_reset_date
                &&& state.wf()
            },
            Err(StateError::DuplicateScope(scope)) => exists|i: int|
                {
                    &&& 0 <= i < scopes.len()
                    &&& scopes_differ(scopes, i)
                    &&& scope_listed(scopes, i, (#[trigger] scopes[i]).scope.key())
                    &&& scope == scopes[i].scope
                },
            Err(StateError::UnknownScope(scope)) => exists|i: int|
                {
                    &&& 0 <= i < controls.len()
                    &&& scopes_differ(scopes, scopes.len() as int)
                    &&& controls_differ(controls, i)
                    &&& controls_known(snapshot, i)
                    &&& !scope_listed(
                        scopes,
                        scopes.len() as int,
                        (#[trigger] controls[i]).selected_scope.key(),
                    )
                    &&& scope == controls[i].selected_scope
                },
            Err(StateError::DuplicateControl(control)) => exists|i: int|
                {
                    &&& 0 <= i < controls.len()
                    &&& scopes_differ(scopes, scopes.len() as int)
                    &&& controls_differ(controls, i)
                    &&& controls_known(snapshot, i + 1)
                    &&& control_listed(controls, i, (#[trigger] controls[i]).id.key())
                    &&& control == controls[i].id
                },
            Err(_) => false,
        }
    }

    pub fn snapshot(&self) -> (snapshot: AutomationSnapshot)
        ensures
            self.stored_as(snapshot),
            crate::ordered::ascending(self.scopes.pairs()),
            crate::ordered::ascending(self.controls.pairs()),
    {
        let scope_count: usize = self.scopes.len();
        let control_count: usize = self.controls.len();
        let mut scopes: Vec<ScopeSnapshot> = Vec::new();
        let mut i: usize = 0;
        while i < scope_count
            invariant
                i <= scope_count,
                scope_count == self.scopes.pairs().len(),
                scopes@.len() == i,
                forall|j: int|
                    0 <= j < i ==> #[trigger] scopes@[j] == ScopeSnapshot::of(
                        self.scopes.pairs()[j].0,
                        self.scopes.pairs()[j].1,
                    ),
            decreases self.scopes.pairs().len() - i,
        {
            let state = self.scopes.value_at(i);
            scopes.push(
                ScopeSnapshot {
                    scope: self.scopes.key_at(i).clone(),
                    on: state.on,
                    offsets: state.offsets,
                    curve_mode: match state.mode {
                        CurveMode::Frozen { baseline } => PersistedCurveMode::Frozen { baseline },
                        _ => PersistedCurveMode::Follow,
                    },
                },
            );
            i = i + 1;
        }
        let mut controls: Vec<ControlSnapshot> = Vec::new();
        let mut k: usize = 0;
        while k < control_count
            invariant
                k <= control_count,
                control_count == self.controls.pairs().len(),
                controls@.len() == k,
                forall|j: int|
                    0 <= j < k ==> (#[trigger] controls@[j]).id == self.controls.pairs()[j].0
                        && controls@[j].selected_scope
                        == self.controls.pairs()[j].1.selected_scope,
            decreases self.controls.pairs().len() - k,
        {
            controls.push(
                ControlSnapshot {
                    id: self.controls.key_at(k).clone(),
                    selected_scope: self.controls.value_at(k).selected_scope.clone(),
                },
            );
            k = k + 1;
        }
        AutomationSnapshot { scopes, controls, last_reset_date: self.last_reset_date }
    }

    pub fn restore(snapshot: AutomationSnapshot) -> (result: Result<Self, StateError>)
        ensures
            AutomationState::restored_from(snapshot, result),
    {
        let mut state = AutomationState {
            scopes: SortedMap::new(),
            controls: SortedMap::new(),
            last_reset_date: snapshot.last_reset_date,
        };
        let ghost scopes = snapshot.scopes@;
        let ghost controls = snapshot.controls@;
        let mut i: usize = 0;
        while i < snapshot.scopes.len()
            invariant
                i <= snapshot.scopes@.len(),
                scopes == snapshot.scopes@,
                state.last_reset_date == snapshot.last_reset_date,
                state.controls@ == Map::<Seq<u8>, ControlState>::empty(),
                scopes_differ(scopes, i as int),
                scopes_hold(state.scopes@, scopes, i as int),
            decreases snapshot.scopes@.len() - i,
        {
            let scope = snapshot.scopes[i].scope.clone();
            let ghost before = state.scopes@;
            if let Err(error) = state.insert_scope(scope, snapshot.scopes[i].to_state()) {
                assert(scope_listed(scopes, i as int, scopes[i as int].scope.key()));
                return Err(error);
            }
            proof {
                let key = scopes[i as int].scope.key();
                assert(!scope_listed(scopes, i as int, key));
                assert(scopes_differ(scopes, i + 1));
                assert forall|k: Seq<u8>| #[trigger] state.scopes@.contains_key(k) <==> scope_listed(
                    scopes,
                    i + 1,
                    k,
                ) by {
                    if scope_listed(scopes, i as int, k) {
                        let j = choose|j: int| 0 <= j < i && (#[trigger] scopes[j]).scope.key() == k;
                        assert(scopes[j].scope.key() == k);
                    }
                    if k == key {
                        assert(scopes[i as int].scope.key() == k);
                    }
                    assert(before.contains_key(k) <==> scope_listed(scopes, i as int, k));
                }
                assert forall|j: int| 0 <= j < i + 1 implies state.scopes@[(
                #[trigger] scopes[j]).scope.key()] == scopes[j].state() by {
                    if j < i {
                        assert(scopes[j].scope.key() != key);
                    }
                }
            }
            i = i + 1;
        }
        let mut k: usize = 0;
        while k < snapshot.controls.len()
            invariant
                k <= snapshot.controls@.len(),
                scopes == snapshot.scopes@,
                controls == snapshot.controls@,
                state.last_reset_date == snapshot.last_reset_date,
                scopes_differ(scopes, scopes.len() as int),
                scopes_hold(state.scopes@, scopes, scopes.len() as int),
                controls_differ(controls, k as int),
                controls_hold(state.controls@, controls, k as int),
                controls_known(snapshot, k as int),
                state.wf(),
            decreases snapshot.controls@.len() - k,
        {
            let id = snapshot.controls[k].id.clone();
            let selected = ControlState::new(snapshot.controls[k].selected_scope.clone());
            let ghost before = state.controls@;
            let ghost target = controls[k as int].selected_scope.key();
            assert(state.scopes@.contains_key(target) <==> scope_listed(
                scopes,
                scopes.len() as int,
                target,
            ));
            if let Err(error) = state.insert_control(id, selected) {
                proof {
                    let key = controls[k as int].id.key();
                    assert(before.contains_key(key) <==> control_listed(controls, k as int, key));
                }
                return Err(error);
            }
            proof {
                let key = controls[k as int].id.key();
                assert(!control_listed(controls, k as int, key));
                assert(controls_differ(controls, k + 1));
                assert forall|x: Seq<u8>| #[trigger] state.controls@.contains_key(x)
                    <==> control_listed(controls, k + 1, x) by {
                    if control_listed(controls, k as int, x) {
                        let j = choose|j: int| 0 <= j < k && (#[trigger] controls[j]).id.key() == x;
                        assert(controls[j].id.key() == x);
                    }
                    if x == key {
                        assert(controls[k as int].id.key() == x);
                    }
                    assert(before.contains_key(x) <==> control_listed(controls, k as int, x));
                }
                assert forall|j: int| 0 <= j < k + 1 implies state.controls@[(
                #[trigger] controls[j]).id.key()].selected_scope == controls[j].selected_scope by {
                    if j < k {
                        assert(controls[j].id.key() != key);
                    }
                }
            }
            k = k + 1;
        }
        Ok(state)
    }

    /// What is stored of a restored state is what it was restored from: the same
    /// scopes and controls in the same places, with the same content.
    pub proof fn snapshots_repeat(
        self,
        snapshot: AutomationSnapshot,
        restored: AutomationState,
        again: AutomationSnapshot,
    )
        requires
            self.wf(),
            crate::ordered::ascending(self.scopes.pairs()),
            crate::ordered::ascending(self.controls.pairs()),
            crate::ordered::ascending(restored.scopes.pairs()),
            crate::ordered::ascending(restored.controls.pairs()),
            self.stored_as(snapshot),
            AutomationState::restored_from(snapshot, Ok(restored)),
            restored.stored_as(again),
        ensures
            again.last_reset_date == snapshot.last_reset_date,
            again.scopes@.len() == snapshot.scopes@.len(),
            forall|i: int|
                0 <= i < snapshot.scopes@.len() ==> {
                    let old = #[trigger] snapshot.scopes@[i];
                    let new = again.scopes@[i];
                    &&& new.scope.key() == old.scope.key()
                    &&& new.on == old.on
                    &&& new.offsets == old.offsets
                    &&& new.curve_mode == old.curve_mode
                },
            again.controls@.len() == snapshot.controls@.len(),
            forall|i: int|
                0 <= i < snapshot.controls@.len() ==> {
                    let old = #[trigger] snapshot.controls@[i];
                    let new = again.controls@[i];
                    &&& new.id.key() == old.id.key()
                    &&& new.selected_scope == old.selected_scope
                },
    {
        self.restore_undoes_snapshot(snapshot, Ok(restored));
        let pairs = self.scopes.pairs();
        let others = restored.scopes.pairs();
        assert forall|key: Seq<u8>| #[trigger] crate::ordered::has_key(pairs, key)
            == crate::ordered::has_key(others, key) by {
            assert(self.scopes@.contains_key(key) == restored.scopes@.contains_key(key));
        }
        crate::ordered::keys_fix_places(pairs, others);
        assert forall|i: int| 0 <= i < snapshot.scopes@.len() implies {
            let old = #[trigger] snapshot.scopes@[i];
            let new = again.scopes@[i];
            &&& new.scope.key() == old.scope.key()
            &&& new.on == old.on
            &&& new.offsets == old.offsets
            &&& new.curve_mode == old.curve_mode
        } by {
            crate::ordered::pair_is_mapped(pairs, i);
            crate::ordered::pair_is_mapped(others, i);
            assert(pairs[i].0.key() == others[i].0.key());
            assert(restored.scopes@[others[i].0.key()] == others[i].1);
            assert(self.scopes@[pairs[i].0.key()] == pairs[i].1);
            assert(again.scopes@[i] == ScopeSnapshot::of(others[i].0, others[i].1));
        }
        let keys = self.controls.pairs();
        let names = restored.controls.pairs();
        assert forall|key: Seq<u8>| #[trigger] crate::ordered::has_key(keys, key)
            == crate::ordered::has_key(names, key) by {
            assert(self.controls@.contains_key(key) == restored.controls@.contains_key(key));
        }
        crate::ordered::keys_fix_places(keys, names);
        assert forall|i: int| 0 <= i < snapshot.controls@.len() implies {
            let old = #[trigger] snapshot.controls@[i];
            let new = again.controls@[i];
            &&& new.id.key() == old.id.key()
            &&& new.selected_scope == old.selected_scope
        } by {
            crate::ordered::pair_is_mapped(keys, i);
            crate::ordered::pair_is_mapped(names, i);
            assert(keys[i].0.key() == names[i].0.key());
            assert(restored.controls@[names[i].0.key()] == names[i].1);
            assert(self.controls@[keys[i].0.key()] == keys[i].1);
            assert(again.controls@[i].id == names[i].0);
        }
    }

    /// Restoring what was stored gives the same state back, except that scopes
    /// on their way back to the curve already follow it.
    pub proof fn restore_undoes_snapshot(
        self,
        snapshot: AutomationSnapshot,
        result: Result<AutomationState, StateError>,
    )
        requires
            self.wf(),
            crate::ordered::ascending(self.scopes.pairs()),
            crate::ordered::ascending(self.controls.pairs()),
            self.stored_as(snapshot),
            AutomationState::restored_from(snapshot, result),
        ensures
            result is Ok,
            result->Ok_0.last_reset_date == self.last_reset_date,
            result->Ok_0.controls@ == self.controls@,
            result->Ok_0.scopes@ == self.scopes@.map_values(
                |state: ScopeState|
                    ScopeState {
                        on: state.on,
                        offsets: state.offsets,
                        mode: state.mode.persisted().restored(),
                    },
            ),
    {
        let scopes = snapshot.scopes@;
        let controls = snapshot.controls@;
        let pairs = self.scopes.pairs();
        let others = self.controls.pairs();
        assert forall|i: int, j: int| 0 <= i < j < scopes.len() implies (
        #[trigger] scopes[i]).scope.key() != (#[trigger] scopes[j]).scope.key() by {
            assert(text::before(pairs[i].0.key(), pairs[j].0.key()));
            text::before_irreflexive(pairs[i].0.key());
        }
        assert forall|i: int, j: int| 0 <= i < j < controls.len() implies (
        #[trigger] controls[i]).id.key() != (#[trigger] controls[j]).id.key() by {
            assert(text::before(others[i].0.key(), others[j].0.key()));
            text::before_irreflexive(others[i].0.key());
        }
        assert forall|key: Seq<u8>| scope_listed(scopes, scopes.len() as int, key)
            == #[trigger] self.scopes@.contains_key(key) by {
            if scope_listed(scopes, scopes.len() as int, key) {
                let i = choose|i: int|
                    0 <= i < scopes.len() && (#[trigger] scopes[i]).scope.key() == key;
                crate::ordered::pair_is_mapped(pairs, i);
            }
            if crate::ordered::has_key(pairs, key) {
                let i = crate::ordered::index_of(pairs, key);
                assert(scopes[i].scope.key() == key);
            }
        }
        assert forall|key: Seq<u8>| control_listed(controls, controls.len() as int, key)
            == #[trigger] self.controls@.contains_key(key) by {
            if control_listed(controls, controls.len() as int, key) {
                let i = choose|i: int|
                    0 <= i < controls.len() && (#[trigger] controls[i]).id.key() == key;
                crate::ordered::pair_is_mapped(others, i);
            }
            if crate::ordered::has_key(others, key) {
                let i = crate::ordered::index_of(others, key);
                assert(controls[i].id.key() == key);
            }
        }
        assert(controls_known(snapshot, controls.len() as int)) by {
            assert forall|i: int| 0 <= i < controls.len() implies scope_listed(
                scopes,
                scopes.len() as int,
                (#[trigger] controls[i]).selected_scope.key(),
            ) by {
                crate::ordered::pair_is_mapped(others, i);
                assert(self.controls@.contains_key(others[i].0.key()));
                assert(self.scopes@.contains_key(controls[i].selected_scope.key()));
            }
        }
        match result {
            Ok(state) => {
                let change = |state: ScopeState|
                    ScopeState {
                        on: state.on,
                        offsets: state.offsets,
                        mode: state.mode.persisted().restored(),
                    };
                assert forall|key: Seq<u8>| #[trigger] state.scopes@.contains_key(key) implies state.scopes@[key]
                    == change(self.scopes@[key]) by {
                    let i = choose|i: int|
                        0 <= i < scopes.len() && (#[trigger] scopes[i]).scope.key() == key;
                    crate::ordered::pair_is_mapped(pairs, i);
                }
                assert(state.scopes@ =~= self.scopes@.map_values(change));
                assert forall|key: Seq<u8>| #[trigger] state.controls@.contains_key(key) implies state.controls@[key]
                    == self.controls@[key] by {
                    let i = choose|i: int|
                        0 <= i < controls.len() && (#[trigger] controls[i]).id.key() == key;
                    crate::ordered::pair_is_mapped(others, i);
                }
                assert(state.controls@ =~= self.controls@);
            },
            Err(StateError::DuplicateScope(_)) => {
                let i = choose|i: int|
                    {
                        &&& 0 <= i < scopes.len()
                        &&& scopes_differ(scopes, i)
                        &&& scope_listed(scopes, i, (#[trigger] scopes[i]).scope.key())
                    };
                let j = choose|j: int|
                    0 <= j < i && (#[trigger] scopes[j]).scope.key() == scopes[i].scope.key();
                assert(scopes[j].scope.key() != scopes[i].scope.key());
            },
            Err(StateError::DuplicateControl(_)) => {
                let i = choose|i: int|
                    {
                        &&& 0 <= i < controls.len()
                        &&& controls_differ(controls, i)
                        &&& control_listed(controls, i, (#[trigger] controls[i]).id.key())
                    };
                let j = choose|j: int|
                    0 <= j < i && (#[trigger] controls[j]).id.key() == controls[i].id.key();
                assert(controls[j].id.key() != controls[i].id.key());
            },
            Err(StateError::UnknownScope(_)) => {
                let i = choose|i: int|
                    {
                        &&& 0 <= i < controls.len()
                        &&& !scope_listed(
                            scopes,
                            scopes.len() as int,
                            (#[trigger] controls[i]).selected_scope.key(),
                        )
                    };
                assert(scope_listed(
                    scopes,
                    scopes.len() as int,
                    controls[i].selected_scope.key(),
                ));
            },
            _ => {},
        }
    }
}

} // verus!
