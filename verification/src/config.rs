//! Settings of the service: what a configuration file says, and what of it is
//! accepted.
use crate::curve::TimeOfDay;
use crate::double::Double;
use crate::input::{AmbiguousHoldWindow, ClickClassifier, ClickWindow, Direction, Gesture};
use crate::overlay::{AcknowledgementSettings, OverlayDuration, OverlayEffect, OverlayId};
use crate::reconcile::RetryPolicy;
use crate::solar::{Coordinates, MonthDay, TimeZone, HALF_TURN, QUARTER_TURN};
use crate::state::ConvergenceDuration;
use crate::text;
use vstd::prelude::*;
use vstd::string::*;

verus! {

pub const MAX_CONFIG_BYTES: usize = 1_048_576;

pub const MAX_TOPIC_LENGTH: usize = 256;

pub const MAX_CLIENT_ID_LENGTH: usize = 64;

/// Upper bounds keep every accepted timer practical for one always-on house
/// process.
pub const MAX_DOUBLE_CLICK_WINDOW_MS: u64 = 2_000;

pub const MAX_AMBIGUOUS_HOLD_WINDOW_MS: u64 = 10_000;

/// Bits of `3600.0`.
pub const MAX_UNFREEZE_CONVERGENCE_SECONDS: u64 = 0x40ac_2000_0000_0000;

/// Bits of `3600.0`.
pub const MAX_SPARSE_TICK_SECONDS: u64 = 0x40ac_2000_0000_0000;

/// Bits of `86400.0`.
pub const MAX_SPARSE_REFRESH_SECONDS: u64 = 0x40f5_1800_0000_0000;

pub const MAX_ACKNOWLEDGEMENT_DURATION_MS: u64 = 5_000;

pub const MAX_WHOLE_HOUR_DURATION_MS: u64 = 60_000;

/// Bits of `3600.0`.
pub const MAX_RECONCILE_RETRY_INTERVAL_SECONDS: u64 = 0x40ac_2000_0000_0000;

/// Bits of `300.0`.
pub const MAX_DISPATCH_ACCEPTANCE_MARGIN_SECONDS: u64 = 0x4072_c000_0000_0000;

/// Bits of `300.0`.
pub const MAX_DISPATCH_FAILURE_BACKOFF_SECONDS: u64 = 0x4072_c000_0000_0000;

/// Bits of `0.001`.
pub const MIN_OPERATIONAL_DURATION_SECONDS: u64 = 0x3f50_624d_d2f1_a9fc;

/// Bits of `1000.0`.
pub const MILLISECONDS: u64 = 0x408f_4000_0000_0000;

/// Bits of `1.0`.
pub const ONE: u64 = 0x3ff0_0000_0000_0000;

#[derive(Debug, Clone, PartialEq, Eq)]
pub enum ConfigError {
    TooLarge { maximum_bytes: usize },
    Parse { line: usize, column: usize },
    Validation { field: &'static str, reason: &'static str },
}

/// What is wrong with a setting: where, and why.
pub type Problem = (Seq<char>, Seq<char>);

impl ConfigError {
    /// The error tells of this problem.
    pub open spec fn tells(self, problem: Problem) -> bool {
        self matches ConfigError::Validation { field, reason } && field@ == problem.0 && reason@
            == problem.1
    }

    pub(crate) fn validation(field: &'static str, reason: &'static str) -> (error: Self)
        ensures
            error.tells((field@, reason@)),
    {
        ConfigError::Validation { field, reason }
    }

    /// The error in words.
    pub open spec fn described(self) -> Seq<char> {
        match self {
            ConfigError::TooLarge { maximum_bytes } => "configuration exceeds "@
                + crate::message::decimal(maximum_bytes as nat) + " byte limit"@,
            ConfigError::Parse { line, column } => if line > 0 {
                "configuration syntax or schema is invalid near line "@ + crate::message::decimal(
                    line as nat,
                ) + ", column "@ + crate::message::decimal(column as nat)
            } else {
                "configuration syntax or schema is invalid"@
            },
            ConfigError::Validation { field, reason } => "invalid "@ + field@ + ": "@ + reason@,
        }
    }

    pub fn message(&self) -> (text: String)
        ensures
            text@ == self.described(),
    {
        match self {
            ConfigError::TooLarge { maximum_bytes } => {
                let limit = crate::message::digits(*maximum_bytes as u64);
                String::from_str("configuration exceeds ").concat(limit.as_str()).concat(
                    " byte limit",
                )
            },
            ConfigError::Parse { line, column } => {
                if *line > 0 {
                    let row = crate::message::digits(*line as u64);
                    let place = crate::message::digits(*column as u64);
                    String::from_str(
                        "configuration syntax or schema is invalid near line ",
                    ).concat(row.as_str()).concat(", column ").concat(place.as_str())
                } else {
                    String::from_str("configuration syntax or schema is invalid")
                }
            },
            ConfigError::Validation { field, reason } => String::from_str("invalid ").concat(
                field,
            ).concat(": ").concat(reason),
        }
    }
}

/// Success exactly where nothing is wrong, and otherwise the first problem.
pub open spec fn answers<T>(result: Result<T, ConfigError>, fault: Option<Problem>) -> bool {
    match (result, fault) {
        (Ok(_), None) => true,
        (Err(error), Some(problem)) => error.tells(problem),
        _ => false,
    }
}

// Texts.

/// A name that a POSIX environment variable can have.
pub open spec fn environment_name(name: Seq<char>) -> bool {
    &&& name.len() > 0
    &&& (name[0] == '_' || 'A' <= name[0] <= 'Z')
    &&& forall|i: int|
        1 <= i < name.len() ==> (#[trigger] name[i] == '_' || 'A' <= name[i] <= 'Z' || '0'
            <= name[i] <= '9')
}

pub fn valid_environment_name(value: &str) -> (result: bool)
    ensures
        result == environment_name(value@),
{
    let chars = text::characters(value);
    if chars.len() == 0 {
        return false;
    }
    if !(chars[0] == '_' || ('A' <= chars[0] && chars[0] <= 'Z')) {
        return false;
    }
    let mut i: usize = 1;
    while i < chars.len()
        invariant
            1 <= i <= chars@.len(),
            chars@ == value@,
            forall|j: int|
                1 <= j < i ==> (#[trigger] chars@[j] == '_' || 'A' <= chars@[j] <= 'Z' || '0'
                    <= chars@[j] <= '9'),
        decreases chars@.len() - i,
    {
        let c = chars[i];
        if !(c == '_' || ('A' <= c && c <= 'Z') || ('0' <= c && c <= '9')) {
            assert(!(chars@[i as int] == '_' || 'A' <= chars@[i as int] <= 'Z' || '0'
                <= chars@[i as int] <= '9'));
            return false;
        }
        i = i + 1;
    }
    true
}

/// The number that two characters write: two digits, or a plus and a digit.
pub open spec fn two_digits(piece: Seq<char>) -> Option<u8> {
    if piece.len() == 2 && '0' <= piece[1] <= '9' && ('0' <= piece[0] <= '9' || piece[0] == '+') {
        Some(
            (if piece[0] == '+' {
                0
            } else {
                10 * (piece[0] as int - '0' as int)
            } + (piece[1] as int - '0' as int)) as u8,
        )
    } else {
        None
    }
}

fn number_at(chars: &Vec<char>, start: usize) -> (result: Option<u8>)
    requires
        start + 2 <= chars@.len(),
    ensures
        result == two_digits(chars@.subrange(start as int, start + 2)),
{
    let length: usize = chars.len();
    assert(start + 2 <= length);
    let tens = chars[start];
    let ones = chars[start + 1];
    if !('0' <= ones && ones <= '9') {
        return None;
    }
    let last: u8 = (ones as u32 - 48) as u8;
    if tens == '+' {
        return Some(last);
    }
    if !('0' <= tens && tens <= '9') {
        return None;
    }
    let first: u8 = (tens as u32 - 48) as u8;
    Some(first * 10 + last)
}

fn number(piece: &str) -> (result: Option<u8>)
    ensures
        result == two_digits(piece@),
{
    let chars = text::characters(piece);
    if chars.len() != 2 {
        return None;
    }
    assert(chars@.subrange(0, 2) =~= piece@);
    number_at(&chars, 0)
}

/// The time that `HH:MM` or `HH:MM:SS` writes.
pub open spec fn clock_time(value: Seq<char>) -> Option<TimeOfDay> {
    let parts = text::pieces(value, ':');
    let second = if parts.len() == 3 {
        two_digits(parts[2])
    } else {
        Some(0u8)
    };
    if parts.len() != 2 && parts.len() != 3 {
        None
    } else {
        match (two_digits(parts[0]), two_digits(parts[1]), second) {
            (Some(hour), Some(minute), Some(second)) => if hour < 24 && minute < 60 && second < 60 {
                Some(TimeOfDay { seconds: (hour * 3600 + minute * 60 + second) as u32 })
            } else {
                None
            },
            _ => None,
        }
    }
}

pub fn parse_time_of_day(value: &str) -> (result: Option<TimeOfDay>)
    ensures
        result == clock_time(value@),
        result matches Some(time) ==> time.wf(),
{
    let parts = text::split(value, ':');
    assert(text::views(parts@).len() == parts@.len());
    if parts.len() != 2 && parts.len() != 3 {
        return None;
    }
    assert(text::views(parts@)[0] == parts@[0]@ && text::views(parts@)[1] == parts@[1]@);
    let hour: u8 = match number(parts[0].as_str()) {
        Some(hour) => hour,
        None => return None,
    };
    let minute: u8 = match number(parts[1].as_str()) {
        Some(minute) => minute,
        None => return None,
    };
    let second: u8 = if parts.len() == 3 {
        assert(text::views(parts@)[2] == parts@[2]@);
        match number(parts[2].as_str()) {
            Some(second) => second,
            None => return None,
        }
    } else {
        0
    };
    match TimeOfDay::from_hms(hour, minute, second) {
        Ok(time) => Some(time),
        Err(_) => None,
    }
}

/// The day that `MM-DD` writes.
pub open spec fn calendar_day(value: Seq<char>) -> Option<MonthDay> {
    if value.len() == 5 && value[2] == '-' {
        match (two_digits(value.subrange(0, 2)), two_digits(value.subrange(3, 5))) {
            (Some(month), Some(day)) => if (MonthDay { month, day }).wf() {
                Some(MonthDay { month, day })
            } else {
                None
            },
            _ => None,
        }
    } else {
        None
    }
}

pub fn parse_month_day(value: &str) -> (result: Result<MonthDay, ConfigError>)
    ensures
        answers(
            result,
            if calendar_day(value@) is Some {
                None
            } else {
                Some(("curves.winter_hold"@, "must use valid MM-DD values"@))
            },
        ),
        result matches Ok(day) ==> calendar_day(value@) == Some(day) && day.wf(),
{
    let problem = ConfigError::validation("curves.winter_hold", "must use valid MM-DD values");
    let chars = text::characters(value);
    if chars.len() != 5 || chars[2] != '-' {
        return Err(problem);
    }
    let month: u8 = match number_at(&chars, 0) {
        Some(month) => month,
        None => return Err(problem),
    };
    let day: u8 = match number_at(&chars, 3) {
        Some(day) => day,
        None => return Err(problem),
    };
    match MonthDay::new(month, day) {
        Ok(day) => Ok(day),
        Err(_) => Err(problem),
    }
}

/// The gesture that a configuration calls `value`.
pub open spec fn gesture_named(value: Seq<char>) -> Option<Gesture> {
    if value == "up"@ {
        Some(Gesture::Up)
    } else if value == "down"@ {
        Some(Gesture::Down)
    } else if value == "left"@ {
        Some(Gesture::Left)
    } else if value == "right"@ {
        Some(Gesture::Right)
    } else if value == "center_single"@ {
        Some(Gesture::CenterSingle)
    } else if value == "center_double"@ {
        Some(Gesture::CenterDouble)
    } else if value == "center_long"@ {
        Some(Gesture::CenterLong)
    } else if value == "center_release"@ {
        Some(Gesture::CenterRelease)
    } else if value == "hold_up"@ {
        Some(Gesture::DirectionHold(Direction::Up))
    } else if value == "hold_down"@ {
        Some(Gesture::DirectionHold(Direction::Down))
    } else if value == "hold_left"@ {
        Some(Gesture::DirectionHold(Direction::Left))
    } else if value == "hold_right"@ {
        Some(Gesture::DirectionHold(Direction::Right))
    } else if value == "release_up"@ {
        Some(Gesture::DirectionRelease(Direction::Up))
    } else if value == "release_down"@ {
        Some(Gesture::DirectionRelease(Direction::Down))
    } else if value == "release_left"@ {
        Some(Gesture::DirectionRelease(Direction::Left))
    } else if value == "release_right"@ {
        Some(Gesture::DirectionRelease(Direction::Right))
    } else {
        None
    }
}

pub fn parse_gesture(value: &str) -> (result: Option<Gesture>)
    ensures
        result == gesture_named(value@),
{
    if text::text_equals(value, "up") {
        Some(Gesture::Up)
    } else if text::text_equals(value, "down") {
        Some(Gesture::Down)
    } else if text::text_equals(value, "left") {
        Some(Gesture::Left)
    } else if text::text_equals(value, "right") {
        Some(Gesture::Right)
    } else if text::text_equals(value, "center_single") {
        Some(Gesture::CenterSingle)
    } else if text::text_equals(value, "center_double") {
        Some(Gesture::CenterDouble)
    } else if text::text_equals(value, "center_long") {
        Some(Gesture::CenterLong)
    } else if text::text_equals(value, "center_release") {
        Some(Gesture::CenterRelease)
    } else if text::text_equals(value, "hold_up") {
        Some(Gesture::DirectionHold(Direction::Up))
    } else if text::text_equals(value, "hold_down") {
        Some(Gesture::DirectionHold(Direction::Down))
    } else if text::text_equals(value, "hold_left") {
        Some(Gesture::DirectionHold(Direction::Left))
    } else if text::text_equals(value, "hold_right") {
        Some(Gesture::DirectionHold(Direction::Right))
    } else if text::text_equals(value, "release_up") {
        Some(Gesture::DirectionRelease(Direction::Up))
    } else if text::text_equals(value, "release_down") {
        Some(Gesture::DirectionRelease(Direction::Down))
    } else if text::text_equals(value, "release_left") {
        Some(Gesture::DirectionRelease(Direction::Left))
    } else if text::text_equals(value, "release_right") {
        Some(Gesture::DirectionRelease(Direction::Right))
    } else {
        None
    }
}

// Topics.

/// A topic segment that no namespace may hold.
pub open spec fn unusable_segment(segment: Seq<char>) -> bool {
    ||| segment.len() == 0
    ||| segment[0] == '$'
    ||| segment == "bridge"@
    ||| segment == "set"@
    ||| segment == "get"@
    ||| segment == "availability"@
}

/// A version segment such as `v1`, without leading zeros.
pub open spec fn version_segment(segment: Seq<char>) -> bool {
    &&& segment.len() >= 2
    &&& segment[0] == 'v'
    &&& '1' <= segment[1] <= '9'
    &&& forall|i: int| 2 <= i < segment.len() ==> '0' <= #[trigger] segment[i] <= '9'
}

/// Why a topic namespace is refused.
pub open spec fn namespace_fault(value: Seq<char>, require_version: bool) -> Option<Seq<char>> {
    let parts = text::pieces(value, '/');
    if value.len() == 0 || text::bytes_of(value).len() > MAX_TOPIC_LENGTH || value[0] == '/'
        || value[value.len() - 1] == '/' || text::has_unfit(value) {
        Some("must be a bounded MQTT namespace without wildcards or control characters"@)
    } else if exists|i: int| 0 <= i < parts.len() && unusable_segment(#[trigger] parts[i]) {
        Some("contains an empty or reserved MQTT component"@)
    } else if require_version && (parts.len() < 2 || !version_segment(parts.last())) {
        Some("must end with a non-zero version segment such as v1"@)
    } else {
        None
    }
}

fn is_unusable_segment(segment: &str) -> (result: bool)
    ensures
        result == unusable_segment(segment@),
{
    let chars = text::characters(segment);
    chars.len() == 0 || chars[0] == '$' || text::text_equals(segment, "bridge")
        || text::text_equals(segment, "set") || text::text_equals(segment, "get")
        || text::text_equals(segment, "availability")
}

fn is_version_segment(segment: &str) -> (result: bool)
    ensures
        result == version_segment(segment@),
{
    let chars = text::characters(segment);
    if chars.len() < 2 || chars[0] != 'v' || !('1' <= chars[1] && chars[1] <= '9') {
        return false;
    }
    let mut i: usize = 2;
    while i < chars.len()
        invariant
            2 <= i <= chars@.len(),
            chars@ == segment@,
            forall|j: int| 2 <= j < i ==> '0' <= #[trigger] chars@[j] <= '9',
        decreases chars@.len() - i,
    {
        if !('0' <= chars[i] && chars[i] <= '9') {
            assert(!('0' <= chars@[i as int] <= '9'));
            return false;
        }
        i = i + 1;
    }
    true
}

/// Why a topic namespace is refused; none for one that is accepted.
pub fn validate_topic_namespace(value: &str, require_version: bool) -> (result: Result<
    (),
    &'static str,
>)
    ensures
        match result {
            Ok(()) => namespace_fault(value@, require_version) is None,
            Err(reason) => namespace_fault(value@, require_version) == Some(reason@),
        },
{
    let chars = text::characters(value);
    if chars.len() == 0 || value.as_bytes().len() > MAX_TOPIC_LENGTH || chars[0] == '/'
        || chars[chars.len() - 1] == '/' || text::contains_unfit(&chars) {
        return Err("must be a bounded MQTT namespace without wildcards or control characters");
    }
    let parts = text::split(value, '/');
    let ghost views = text::views(parts@);
    let mut i: usize = 0;
    while i < parts.len()
        invariant
            i <= parts@.len(),
            views == text::views(parts@),
            views == text::pieces(value@, '/'),
            forall|j: int| 0 <= j < i ==> !unusable_segment(#[trigger] views[j]),
            value@.len() > 0 && text::bytes_of(value@).len() <= MAX_TOPIC_LENGTH && value@[0] != '/'
                && value@[value@.len() - 1] != '/' && !text::has_unfit(value@),
        decreases parts@.len() - i,
    {
        assert(views[i as int] == parts@[i as int]@);
        if is_unusable_segment(parts[i].as_str()) {
            assert(unusable_segment(views[i as int]));
            return Err("contains an empty or reserved MQTT component");
        }
        i = i + 1;
    }
    if require_version {
        let last: usize = parts.len() - 1;
        assert(views.last() == parts@[last as int]@);
        if parts.len() < 2 || !is_version_segment(parts[last].as_str()) {
            return Err("must end with a non-zero version segment such as v1");
        }
    }
    Ok(())
}

/// `inner` stands under `outer`.
pub open spec fn nested(inner: Seq<char>, outer: Seq<char>) -> bool {
    text::starts(inner, outer) && outer.len() < inner.len() && inner[outer.len() as int] == '/'
}

/// Two namespaces share topics.
pub open spec fn overlapping(left: Seq<char>, right: Seq<char>) -> bool {
    left == right || nested(left, right) || nested(right, left)
}

fn is_nested(inner: &Vec<char>, outer: &Vec<char>) -> (result: bool)
    ensures
        result == nested(inner@, outer@),
{
    text::starts_with(inner, outer) && outer.len() < inner.len() && inner[outer.len()] == '/'
}

pub fn topic_namespaces_overlap(left: &str, right: &str) -> (result: bool)
    ensures
        result == overlapping(left@, right@),
{
    let a = text::characters(left);
    let b = text::characters(right);
    text::text_equals(left, right) || is_nested(&a, &b) || is_nested(&b, &a)
}

/// Overlap does not depend on which namespace comes first.
pub proof fn overlap_is_mutual(left: Seq<char>, right: Seq<char>)
    ensures
        overlapping(left, right) == overlapping(right, left),
{
}

// Numbers.

/// A finite number above zero.
pub open spec fn above_zero(value: Double) -> bool {
    value.finite() && (Double { bits: 0 }).less(value)
}

fn positive_finite(value: Double) -> (result: bool)
    ensures
        result == above_zero(value),
{
    value.is_finite() && Double::from_bits(0).lt(value)
}

/// Milliseconds in seconds; none for zero.
pub open spec fn seconds_of(milliseconds: u64) -> Option<Double> {
    let seconds = Double::of_nat(milliseconds as nat).quotient(Double { bits: MILLISECONDS });
    if milliseconds != 0 && above_zero(seconds) {
        Some(seconds)
    } else {
        None
    }
}

pub fn seconds_from_ms(milliseconds: u64) -> (result: Option<Double>)
    ensures
        result == seconds_of(milliseconds),
{
    if milliseconds == 0 {
        return None;
    }
    let seconds = Double::from_u64(milliseconds).over(Double::from_bits(MILLISECONDS));
    if positive_finite(seconds) {
        Some(seconds)
    } else {
        None
    }
}

/// `value` lies outside `low..=high`; never for NaN.
pub open spec fn outside(value: Double, low: u64, high: u64) -> bool {
    value.less(Double { bits: low }) || (Double { bits: high }).less(value)
}

/// A number between two others.
pub open spec fn between(value: Double, low: u64, high: u64) -> bool {
    (Double { bits: low }).at_most(value) && value.at_most(Double { bits: high })
}

fn is_outside(value: Double, low: u64, high: u64) -> (result: bool)
    ensures
        result == outside(value, low, high),
{
    value.lt(Double::from_bits(low)) || Double::from_bits(high).lt(value)
}

// Sections.

/// Where the house stands.
#[derive(Debug, PartialEq)]
pub struct RawLocation {
    pub latitude: Double,
    pub longitude: Double,
    pub time_zone: String,
}

#[derive(Debug, PartialEq)]
pub struct ValidatedLocation {
    pub coordinates: Coordinates,
    pub time_zone: TimeZone,
}

impl RawLocation {
    pub open spec fn fault(self) -> Option<Problem> {
        if !crate::solar::within(self.latitude, Double { bits: QUARTER_TURN }) {
            Some(("location.latitude"@, "latitude must be finite and between -90 and 90"@))
        } else if !crate::solar::within(self.longitude, Double { bits: HALF_TURN }) {
            Some(("location.longitude"@, "longitude must be finite and between -180 and 180"@))
        } else if !crate::solar::zone_exists(self.time_zone@) {
            Some(("location.time_zone"@, "must be a known IANA timezone"@))
        } else {
            None
        }
    }

    pub open spec fn accepted(self) -> ValidatedLocation {
        ValidatedLocation {
            coordinates: Coordinates { latitude: self.latitude, longitude: self.longitude },
            time_zone: TimeZone { name: self.time_zone },
        }
    }

    pub fn validate(self) -> (result: Result<ValidatedLocation, ConfigError>)
        ensures
            answers(result, self.fault()),
            result matches Ok(location) ==> location == self.accepted(),
    {
        let quarter = Double::from_bits(QUARTER_TURN);
        if !(self.latitude.is_finite() && quarter.neg().le(self.latitude) && self.latitude.le(
            quarter,
        )) {
            return Err(
                ConfigError::validation(
                    "location.latitude",
                    "latitude must be finite and between -90 and 90",
                ),
            );
        }
        let half = Double::from_bits(HALF_TURN);
        if !(self.longitude.is_finite() && half.neg().le(self.longitude) && self.longitude.le(
            half,
        )) {
            return Err(
                ConfigError::validation(
                    "location.longitude",
                    "longitude must be finite and between -180 and 180",
                ),
            );
        }
        let time_zone = match TimeZone::new(self.time_zone) {
            Some(time_zone) => time_zone,
            None => return Err(
                ConfigError::validation("location.time_zone", "must be a known IANA timezone"),
            ),
        };
        match Coordinates::new(self.latitude, self.longitude) {
            Ok(coordinates) => Ok(ValidatedLocation { coordinates, time_zone }),
            Err(_) => Err(
                ConfigError::validation("location", "coordinates must be finite and in range"),
            ),
        }
    }
}

/// Where the broker's credentials are said to be; `resolved` is the path with
/// every link followed, where the file exists.
#[derive(PartialEq)]
pub struct RawCredentials {
    pub environment_file: String,
    pub resolved: Option<String>,
    pub username_variable: String,
    pub password_variable: String,
}

/// Where the broker's credentials are.
#[derive(PartialEq)]
pub struct MqttCredentialSource {
    pub environment_file: String,
    pub username_variable: String,
    pub password_variable: String,
}

impl Clone for MqttCredentialSource {
    fn clone(&self) -> (result: Self)
        ensures
            result == *self,
    {
        MqttCredentialSource {
            environment_file: self.environment_file.clone(),
            username_variable: self.username_variable.clone(),
            password_variable: self.password_variable.clone(),
        }
    }
}

/// A segment that stands for this directory or the one above.
pub open spec fn dotted(segment: Seq<char>) -> bool {
    segment == "."@ || segment == ".."@
}

/// Some segment of the path stands for this directory or the one above.
pub open spec fn has_lexical_alias(path: Seq<char>) -> bool {
    exists|i: int|
        0 <= i < text::pieces(path, '/').len() && dotted(#[trigger] text::pieces(path, '/')[i])
}

fn contains_lexical_alias(path: &str) -> (result: bool)
    ensures
        result == has_lexical_alias(path@),
{
    let segments = text::split(path, '/');
    let ghost views = text::views(segments@);
    let mut i: usize = 0;
    while i < segments.len()
        invariant
            i <= segments@.len(),
            views == text::views(segments@),
            views == text::pieces(path@, '/'),
            forall|j: int| 0 <= j < i ==> !dotted(#[trigger] views[j]),
        decreases segments@.len() - i,
    {
        let segment = segments[i].as_str();
        assert(views[i as int] == segment@);
        if text::text_equals(segment, ".") || text::text_equals(segment, "..") {
            assert(dotted(text::pieces(path@, '/')[i as int]));
            return true;
        }
        i = i + 1;
    }
    false
}

impl RawCredentials {
    /// The file is no absolute, normalized path outside the store.
    pub open spec fn misplaced(self) -> bool {
        ||| !crate::mqtt::absolute(self.environment_file@)
        ||| crate::mqtt::in_nix_store(self.environment_file@)
        ||| text::has_control(self.environment_file@)
        ||| has_lexical_alias(self.environment_file@)
        ||| (self.resolved matches Some(path) && crate::mqtt::in_nix_store(path@))
    }

    pub open spec fn fault(self) -> Option<Problem> {
        if self.misplaced() {
            Some(
                (
                    "mqtt.credentials.environment_file"@,
                    "must be an absolute, normalized runtime path outside the Nix store"@,
                ),
            )
        } else if !environment_name(self.username_variable@) || !environment_name(
            self.password_variable@,
        ) || self.username_variable@ == self.password_variable@ {
            Some(
                (
                    "mqtt credential variables"@,
                    "must be distinct POSIX environment variable names"@,
                ),
            )
        } else {
            None
        }
    }

    pub open spec fn accepted(self) -> MqttCredentialSource {
        MqttCredentialSource {
            environment_file: self.environment_file,
            username_variable: self.username_variable,
            password_variable: self.password_variable,
        }
    }

    pub fn validate(self) -> (result: Result<MqttCredentialSource, ConfigError>)
        ensures
            answers(result, self.fault()),
            result matches Ok(source) ==> source == self.accepted(),
    {
        let resolved_into_store = match &self.resolved {
            Some(path) => crate::mqtt::is_in_nix_store(path.as_str()),
            None => false,
        };
        let file = self.environment_file.as_str();
        if !crate::mqtt::path_is_outside_nix_store(file) || text::contains_control(
            &text::characters(file),
        ) || contains_lexical_alias(file) || resolved_into_store {
            return Err(
                ConfigError::validation(
                    "mqtt.credentials.environment_file",
                    "must be an absolute, normalized runtime path outside the Nix store",
                ),
            );
        }
        if !valid_environment_name(self.username_variable.as_str()) || !valid_environment_name(
            self.password_variable.as_str(),
        ) || text::text_equals(self.username_variable.as_str(), self.password_variable.as_str()) {
            return Err(
                ConfigError::validation(
                    "mqtt credential variables",
                    "must be distinct POSIX environment variable names",
                ),
            );
        }
        Ok(
            MqttCredentialSource {
                environment_file: self.environment_file,
                username_variable: self.username_variable,
                password_variable: self.password_variable,
            },
        )
    }
}

#[derive(PartialEq)]
pub struct RawMqtt {
    pub host: String,
    pub port: u16,
    pub client_id: String,
    pub application_namespace: String,
    pub zigbee2mqtt_base_topic: String,
    pub credentials: Option<RawCredentials>,
}

impl RawMqtt {
    /// The topics under which the house speaks, where none are set.
    pub fn default_application_namespace() -> (result: String)
        ensures
            result@ == "house/v1"@,
    {
        String::from_str("house/v1")
    }

    /// The topics of the radio bridge, where none are set.
    pub fn default_zigbee2mqtt_topic() -> (result: String)
        ensures
            result@ == "zigbee2mqtt"@,
    {
        String::from_str("zigbee2mqtt")
    }
}

/// How to reach the broker, and the topics used there.
#[derive(PartialEq)]
pub struct MqttSettings {
    pub host: String,
    pub port: u16,
    pub client_id: String,
    pub application_namespace: String,
    pub zigbee2mqtt_base_topic: String,
    pub credentials: Option<MqttCredentialSource>,
}

impl Clone for MqttSettings {
    fn clone(&self) -> (result: Self)
        ensures
            result == *self,
    {
        MqttSettings {
            host: self.host.clone(),
            port: self.port,
            client_id: self.client_id.clone(),
            application_namespace: self.application_namespace.clone(),
            zigbee2mqtt_base_topic: self.zigbee2mqtt_base_topic.clone(),
            credentials: match &self.credentials {
                Some(source) => Some(source.clone()),
                None => None,
            },
        }
    }
}

impl RawMqtt {
    pub open spec fn fault(self) -> Option<Problem> {
        if self.host@.len() == 0 || text::bytes_of(self.host@).len() > MAX_TOPIC_LENGTH
            || text::has_control(self.host@) || self.port == 0 {
            Some(("mqtt endpoint"@, "host must be non-empty and port must be non-zero"@))
        } else if namespace_fault(self.application_namespace@, true) is Some {
            Some(
                (
                    "mqtt.application_namespace"@,
                    namespace_fault(self.application_namespace@, true)->Some_0,
                ),
            )
        } else if namespace_fault(self.zigbee2mqtt_base_topic@, false) is Some {
            Some(
                (
                    "mqtt.zigbee2mqtt_base_topic"@,
                    namespace_fault(self.zigbee2mqtt_base_topic@, false)->Some_0,
                ),
            )
        } else if overlapping(self.application_namespace@, self.zigbee2mqtt_base_topic@) {
            Some(
                (
                    "mqtt namespaces"@,
                    "application and Zigbee2MQTT namespaces must not overlap"@,
                ),
            )
        } else if self.client_id@.len() == 0 || text::bytes_of(self.client_id@).len()
            > MAX_CLIENT_ID_LENGTH || text::has_unfit(self.client_id@) {
            Some(
                (
                    "mqtt.client_id"@,
                    "must be 1..=64 characters without control characters or wildcards"@,
                ),
            )
        } else {
            match self.credentials {
                Some(credentials) => credentials.fault(),
                None => None,
            }
        }
    }

    pub open spec fn accepted(self) -> MqttSettings {
        MqttSettings {
            host: self.host,
            port: self.port,
            client_id: self.client_id,
            application_namespace: self.application_namespace,
            zigbee2mqtt_base_topic: self.zigbee2mqtt_base_topic,
            credentials: match self.credentials {
                Some(credentials) => Some(credentials.accepted()),
                None => None,
            },
        }
    }

    pub fn validate(self) -> (result: Result<MqttSettings, ConfigError>)
        ensures
            answers(result, self.fault()),
            result matches Ok(settings) ==> settings == self.accepted(),
    {
        let host = text::characters(self.host.as_str());
        if host.len() == 0 || self.host.as_str().as_bytes().len() > MAX_TOPIC_LENGTH
            || text::contains_control(&host) || self.port == 0 {
            return Err(
                ConfigError::validation(
                    "mqtt endpoint",
                    "host must be non-empty and port must be non-zero",
                ),
            );
        }
        match validate_topic_namespace(self.application_namespace.as_str(), true) {
            Ok(()) => {},
            Err(reason) => return Err(
                ConfigError::validation("mqtt.application_namespace", reason),
            ),
        }
        match validate_topic_namespace(self.zigbee2mqtt_base_topic.as_str(), false) {
            Ok(()) => {},
            Err(reason) => return Err(
                ConfigError::validation("mqtt.zigbee2mqtt_base_topic", reason),
            ),
        }
        if topic_namespaces_overlap(
            self.application_namespace.as_str(),
            self.zigbee2mqtt_base_topic.as_str(),
        ) {
            return Err(
                ConfigError::validation(
                    "mqtt namespaces",
                    "application and Zigbee2MQTT namespaces must not overlap",
                ),
            );
        }
        let client_id = text::characters(self.client_id.as_str());
        if client_id.len() == 0 || self.client_id.as_str().as_bytes().len() > MAX_CLIENT_ID_LENGTH
            || text::contains_unfit(&client_id) {
            return Err(
                ConfigError::validation(
                    "mqtt.client_id",
                    "must be 1..=64 characters without control characters or wildcards",
                ),
            );
        }
        let credentials = match self.credentials {
            Some(credentials) => match credentials.validate() {
                Ok(source) => Some(source),
                Err(error) => return Err(error),
            },
            None => None,
        };
        Ok(
            MqttSettings {
                host: self.host,
                port: self.port,
                client_id: self.client_id,
                application_namespace: self.application_namespace,
                zigbee2mqtt_base_topic: self.zigbee2mqtt_base_topic,
                credentials,
            },
        )
    }
}

#[derive(Debug, Clone, Copy, PartialEq)]
pub struct RawInput {
    pub double_click_window_ms: u64,
    pub ambiguous_center_hold_window_ms: u64,
}

impl Default for RawInput {
    fn default() -> (result: Self)
        ensures
            result.double_click_window_ms == 350,
            result.ambiguous_center_hold_window_ms == 1_200,
    {
        RawInput { double_click_window_ms: 350, ambiguous_center_hold_window_ms: 1_200 }
    }
}

#[derive(Debug, Clone, Copy, PartialEq)]
pub struct InputSettings {
    pub double_click_window: ClickWindow,
    pub ambiguous_hold_window: AmbiguousHoldWindow,
}

impl RawInput {
    pub open spec fn fault(self) -> Option<Problem> {
        let click = seconds_of(self.double_click_window_ms);
        let hold = seconds_of(self.ambiguous_center_hold_window_ms);
        if self.double_click_window_ms > MAX_DOUBLE_CLICK_WINDOW_MS {
            Some(("input.double_click_window_ms"@, "exceeds the 2000 ms ceiling"@))
        } else if self.ambiguous_center_hold_window_ms > MAX_AMBIGUOUS_HOLD_WINDOW_MS {
            Some(("input.ambiguous_center_hold_window_ms"@, "exceeds the 10000 ms ceiling"@))
        } else if click is None {
            Some(("input.double_click_window_ms"@, "must be positive"@))
        } else if hold is None {
            Some(("input.ambiguous_center_hold_window_ms"@, "must be positive"@))
        } else if hold->Some_0.less(click->Some_0) {
            Some(
                (
                    "input windows"@,
                    "ambiguous center hold window must be at least the double-click window"@,
                ),
            )
        } else {
            None
        }
    }

    pub open spec fn accepted(self) -> InputSettings {
        InputSettings {
            double_click_window: ClickWindow {
                value: seconds_of(self.double_click_window_ms)->Some_0,
            },
            ambiguous_hold_window: AmbiguousHoldWindow {
                value: seconds_of(self.ambiguous_center_hold_window_ms)->Some_0,
            },
        }
    }

    pub fn validate(self) -> (result: Result<InputSettings, ConfigError>)
        ensures
            answers(result, self.fault()),
            result matches Ok(settings) ==> settings == self.accepted(),
    {
        if self.double_click_window_ms > MAX_DOUBLE_CLICK_WINDOW_MS {
            return Err(
                ConfigError::validation(
                    "input.double_click_window_ms",
                    "exceeds the 2000 ms ceiling",
                ),
            );
        }
        if self.ambiguous_center_hold_window_ms > MAX_AMBIGUOUS_HOLD_WINDOW_MS {
            return Err(
                ConfigError::validation(
                    "input.ambiguous_center_hold_window_ms",
                    "exceeds the 10000 ms ceiling",
                ),
            );
        }
        let click_problem = ConfigError::validation(
            "input.double_click_window_ms",
            "must be positive",
        );
        let double_click_window = match seconds_from_ms(self.double_click_window_ms) {
            Some(seconds) => match ClickWindow::from_seconds(seconds) {
                Ok(window) => window,
                Err(_) => return Err(click_problem),
            },
            None => return Err(click_problem),
        };
        let hold_problem = ConfigError::validation(
            "input.ambiguous_center_hold_window_ms",
            "must be positive",
        );
        let ambiguous_hold_window = match seconds_from_ms(self.ambiguous_center_hold_window_ms) {
            Some(seconds) => match AmbiguousHoldWindow::from_seconds(seconds) {
                Ok(window) => window,
                Err(_) => return Err(hold_problem),
            },
            None => return Err(hold_problem),
        };
        match ClickClassifier::with_hold_window(double_click_window, ambiguous_hold_window) {
            Ok(_) => Ok(InputSettings { double_click_window, ambiguous_hold_window }),
            Err(_) => Err(
                ConfigError::validation(
                    "input windows",
                    "ambiguous center hold window must be at least the double-click window",
                ),
            ),
        }
    }
}

#[derive(Debug, PartialEq)]
pub struct RawCircadian {
    pub daily_reset_time: String,
    pub unfreeze_convergence_seconds: Double,
    pub tick_seconds: Double,
    pub brightness_change_threshold: Double,
    pub color_temperature_change_threshold_kelvin: Double,
    pub maximum_refresh_seconds: Double,
}

/// Bits of `30.0`.
pub const HALF_MINUTE: u64 = 0x403e_0000_0000_0000;

/// Bits of `0.01`.
pub const HUNDREDTH: u64 = 0x3f84_7ae1_47ae_147b;

/// Bits of `25.0`.
pub const KELVIN_STEP: u64 = 0x4039_0000_0000_0000;

/// Bits of `300.0`.
pub const FIVE_MINUTES: u64 = 0x4072_c000_0000_0000;

impl Default for RawCircadian {
    fn default() -> (result: Self)
        ensures
            result.daily_reset_time@ == "04:00"@,
            result.unfreeze_convergence_seconds.bits == HALF_MINUTE,
            result.tick_seconds.bits == HALF_MINUTE,
            result.brightness_change_threshold.bits == HUNDREDTH,
            result.color_temperature_change_threshold_kelvin.bits == KELVIN_STEP,
            result.maximum_refresh_seconds.bits == FIVE_MINUTES,
    {
        RawCircadian {
            daily_reset_time: String::from_str("04:00"),
            unfreeze_convergence_seconds: Double::from_bits(HALF_MINUTE),
            tick_seconds: Double::from_bits(HALF_MINUTE),
            brightness_change_threshold: Double::from_bits(HUNDREDTH),
            color_temperature_change_threshold_kelvin: Double::from_bits(KELVIN_STEP),
            maximum_refresh_seconds: Double::from_bits(FIVE_MINUTES),
        }
    }
}

#[derive(Debug, Clone, Copy, PartialEq)]
pub struct CircadianSettings {
    pub daily_reset_time: TimeOfDay,
    pub convergence_duration: ConvergenceDuration,
    pub convergence_duration_seconds: Double,
    pub tick_seconds: Double,
    pub brightness_change_threshold: Double,
    pub color_temperature_change_threshold_kelvin: Double,
    pub maximum_refresh_seconds: Double,
}

impl RawCircadian {
    /// Some setting of sparse updates is out of bounds.
    pub open spec fn not_sparse(self) -> bool {
        ||| !above_zero(self.tick_seconds)
        ||| outside(self.tick_seconds, MIN_OPERATIONAL_DURATION_SECONDS, MAX_SPARSE_TICK_SECONDS)
        ||| !above_zero(self.brightness_change_threshold)
        ||| (Double { bits: ONE }).less(self.brightness_change_threshold)
        ||| !above_zero(self.color_temperature_change_threshold_kelvin)
        ||| !above_zero(self.maximum_refresh_seconds)
        ||| outside(
            self.maximum_refresh_seconds,
            MIN_OPERATIONAL_DURATION_SECONDS,
            MAX_SPARSE_REFRESH_SECONDS,
        )
        ||| self.maximum_refresh_seconds.less(self.tick_seconds)
    }

    pub open spec fn fault(self) -> Option<Problem> {
        if clock_time(self.daily_reset_time@) is None {
            Some(("circadian.daily_reset_time"@, "must be HH:MM or HH:MM:SS"@))
        } else if outside(
            self.unfreeze_convergence_seconds,
            MIN_OPERATIONAL_DURATION_SECONDS,
            MAX_UNFREEZE_CONVERGENCE_SECONDS,
        ) {
            Some(
                (
                    "circadian.unfreeze_convergence_seconds"@,
                    "must be between one millisecond and the one-hour ceiling"@,
                ),
            )
        } else if !crate::reconcile::positive(self.unfreeze_convergence_seconds) {
            Some(("circadian.unfreeze_convergence_seconds"@, "must be finite and positive"@))
        } else if self.not_sparse() {
            Some(
                (
                    "circadian sparse update settings"@,
                    "thresholds and intervals must be positive and within documented ceilings; maximum refresh must be at least one tick"@,
                ),
            )
        } else {
            None
        }
    }

    pub open spec fn accepted(self) -> CircadianSettings {
        CircadianSettings {
            daily_reset_time: clock_time(self.daily_reset_time@)->Some_0,
            convergence_duration: ConvergenceDuration { value: self.unfreeze_convergence_seconds },
            convergence_duration_seconds: self.unfreeze_convergence_seconds,
            tick_seconds: self.tick_seconds,
            brightness_change_threshold: self.brightness_change_threshold,
            color_temperature_change_threshold_kelvin:
                self.color_temperature_change_threshold_kelvin,
            maximum_refresh_seconds: self.maximum_refresh_seconds,
        }
    }

    pub fn validate(self) -> (result: Result<CircadianSettings, ConfigError>)
        ensures
            answers(result, self.fault()),
            result matches Ok(settings) ==> settings == self.accepted()
                && settings.daily_reset_time.wf(),
    {
        let daily_reset_time = match parse_time_of_day(self.daily_reset_time.as_str()) {
            Some(time) => time,
            None => return Err(
                ConfigError::validation("circadian.daily_reset_time", "must be HH:MM or HH:MM:SS"),
            ),
        };
        if is_outside(
            self.unfreeze_convergence_seconds,
            MIN_OPERATIONAL_DURATION_SECONDS,
            MAX_UNFREEZE_CONVERGENCE_SECONDS,
        ) {
            return Err(
                ConfigError::validation(
                    "circadian.unfreeze_convergence_seconds",
                    "must be between one millisecond and the one-hour ceiling",
                ),
            );
        }
        let convergence_duration = match ConvergenceDuration::from_seconds(
            self.unfreeze_convergence_seconds,
        ) {
            Ok(duration) => duration,
            Err(_) => return Err(
                ConfigError::validation(
                    "circadian.unfreeze_convergence_seconds",
                    "must be finite and positive",
                ),
            ),
        };
        if !positive_finite(self.tick_seconds) || is_outside(
            self.tick_seconds,
            MIN_OPERATIONAL_DURATION_SECONDS,
            MAX_SPARSE_TICK_SECONDS,
        ) || !positive_finite(self.brightness_change_threshold) || Double::from_bits(ONE).lt(
            self.brightness_change_threshold,
        ) || !positive_finite(self.color_temperature_change_threshold_kelvin) || !positive_finite(
            self.maximum_refresh_seconds,
        ) || is_outside(
            self.maximum_refresh_seconds,
            MIN_OPERATIONAL_DURATION_SECONDS,
            MAX_SPARSE_REFRESH_SECONDS,
        ) || self.maximum_refresh_seconds.lt(self.tick_seconds) {
            return Err(
                ConfigError::validation(
                    "circadian sparse update settings",
                    "thresholds and intervals must be positive and within documented ceilings; maximum refresh must be at least one tick",
                ),
            );
        }
        Ok(
            CircadianSettings {
                daily_reset_time,
                convergence_duration,
                convergence_duration_seconds: self.unfreeze_convergence_seconds,
                tick_seconds: self.tick_seconds,
                brightness_change_threshold: self.brightness_change_threshold,
                color_temperature_change_threshold_kelvin:
                    self.color_temperature_change_threshold_kelvin,
                maximum_refresh_seconds: self.maximum_refresh_seconds,
            },
        )
    }
}

#[derive(Debug, PartialEq)]
pub struct RawAcknowledgement {
    pub overlay_id: String,
    pub amplitude: Double,
    pub duration_ms: u64,
    pub priority: i32,
}

/// Bits of `0.10`.
pub const TENTH: u64 = 0x3fb9_9999_9999_999a;

impl Default for RawAcknowledgement {
    fn default() -> (result: Self)
        ensures
            result.overlay_id@ == "circadian-ack"@,
            result.amplitude.bits == TENTH,
            result.duration_ms == 180,
            result.priority == 100,
    {
        RawAcknowledgement {
            overlay_id: String::from_str("circadian-ack"),
            amplitude: Double::from_bits(TENTH),
            duration_ms: 180,
            priority: 100,
        }
    }
}

impl RawAcknowledgement {
    pub open spec fn settings(self) -> Result<
        AcknowledgementSettings,
        crate::overlay::OverlayError,
    > {
        AcknowledgementSettings::checked(
            OverlayId { text: self.overlay_id },
            self.amplitude,
            seconds_of(self.duration_ms)->Some_0,
            self.priority,
        )
    }

    pub open spec fn fault(self) -> Option<Problem> {
        if !text::identifier(self.overlay_id@) {
            Some(("acknowledgement.overlay_id"@, "invalid identifier"@))
        } else if self.duration_ms > MAX_ACKNOWLEDGEMENT_DURATION_MS {
            Some(("acknowledgement.duration_ms"@, "exceeds the 5000 ms ceiling"@))
        } else if seconds_of(self.duration_ms) is None {
            Some(("acknowledgement.duration_ms"@, "must be positive"@))
        } else if self.settings() is Err {
            Some(
                (
                    "acknowledgement"@,
                    "amplitude must be 0.01..=0.25 and duration must be positive"@,
                ),
            )
        } else {
            None
        }
    }

    pub fn validate(self) -> (result: Result<AcknowledgementSettings, ConfigError>)
        ensures
            answers(result, self.fault()),
            result matches Ok(settings) ==> Ok::<
                AcknowledgementSettings,
                crate::overlay::OverlayError,
            >(settings) == self.settings() && settings.wf(),
    {
        let id = match OverlayId::new(self.overlay_id) {
            Ok(id) => id,
            Err(_) => return Err(
                ConfigError::validation("acknowledgement.overlay_id", "invalid identifier"),
            ),
        };
        if self.duration_ms > MAX_ACKNOWLEDGEMENT_DURATION_MS {
            return Err(
                ConfigError::validation(
                    "acknowledgement.duration_ms",
                    "exceeds the 5000 ms ceiling",
                ),
            );
        }
        let duration = match seconds_from_ms(self.duration_ms) {
            Some(duration) => duration,
            None => return Err(
                ConfigError::validation("acknowledgement.duration_ms", "must be positive"),
            ),
        };
        match AcknowledgementSettings::new(id, self.amplitude, duration, self.priority) {
            Ok(settings) => Ok(settings),
            Err(_) => Err(
                ConfigError::validation(
                    "acknowledgement",
                    "amplitude must be 0.01..=0.25 and duration must be positive",
                ),
            ),
        }
    }
}

#[derive(Debug, Clone, Copy, PartialEq)]
pub struct RawWholeHour {
    pub brightness_delta: Double,
    pub duration_ms: u64,
    pub priority: i32,
}

/// Bits of `0.08`.
pub const WHOLE_HOUR_DELTA: u64 = 0x3fb4_7ae1_47ae_147b;

impl Default for RawWholeHour {
    fn default() -> (result: Self)
        ensures
            result.brightness_delta.bits == WHOLE_HOUR_DELTA,
            result.duration_ms == 500,
            result.priority == 10,
    {
        RawWholeHour {
            brightness_delta: Double::from_bits(WHOLE_HOUR_DELTA),
            duration_ms: 500,
            priority: 10,
        }
    }
}

#[derive(Debug, Clone, Copy, PartialEq)]
pub struct WholeHourSettings {
    pub brightness_delta: Double,
    pub duration_ms: u64,
    pub priority: i32,
}

/// A change that is zero or larger than `limit`.
pub open spec fn no_step(delta: Double, limit: Double) -> bool {
    delta.same(Double { bits: 0 }) || limit.less(delta.magnitude())
}

pub(crate) fn is_no_step(delta: Double, limit: Double) -> (result: bool)
    ensures
        result == no_step(delta, limit),
{
    delta.equals(Double::from_bits(0)) || limit.lt(delta.abs())
}

impl RawWholeHour {
    pub open spec fn fault(self) -> Option<Problem> {
        if self.duration_ms > MAX_WHOLE_HOUR_DURATION_MS {
            Some(("whole_hour.duration_ms"@, "exceeds the 60000 ms ceiling"@))
        } else if seconds_of(self.duration_ms) is None {
            Some(("whole_hour.duration_ms"@, "must be positive"@))
        } else if !self.brightness_delta.finite() {
            Some(("whole_hour.brightness_delta"@, "must be finite"@))
        } else if no_step(self.brightness_delta, Double { bits: ONE }) {
            Some(("whole_hour.brightness_delta"@, "must be non-zero and between -1 and 1"@))
        } else {
            None
        }
    }

    pub open spec fn accepted(self) -> WholeHourSettings {
        WholeHourSettings {
            brightness_delta: self.brightness_delta,
            duration_ms: self.duration_ms,
            priority: self.priority,
        }
    }

    pub fn validate(self) -> (result: Result<WholeHourSettings, ConfigError>)
        ensures
            answers(result, self.fault()),
            result matches Ok(settings) ==> settings == self.accepted(),
    {
        if self.duration_ms > MAX_WHOLE_HOUR_DURATION_MS {
            return Err(
                ConfigError::validation("whole_hour.duration_ms", "exceeds the 60000 ms ceiling"),
            );
        }
        let problem = ConfigError::validation("whole_hour.duration_ms", "must be positive");
        match seconds_from_ms(self.duration_ms) {
            Some(seconds) => match OverlayDuration::from_seconds(seconds) {
                Ok(_) => {},
                Err(_) => return Err(problem),
            },
            None => return Err(problem),
        }
        match OverlayEffect::brightness_delta(self.brightness_delta) {
            Ok(_) => {},
            Err(_) => return Err(
                ConfigError::validation("whole_hour.brightness_delta", "must be finite"),
            ),
        }
        if is_no_step(self.brightness_delta, Double::from_bits(ONE)) {
            return Err(
                ConfigError::validation(
                    "whole_hour.brightness_delta",
                    "must be non-zero and between -1 and 1",
                ),
            );
        }
        Ok(
            WholeHourSettings {
                brightness_delta: self.brightness_delta,
                duration_ms: self.duration_ms,
                priority: self.priority,
            },
        )
    }
}

#[derive(Debug, Clone, Copy, PartialEq)]
pub struct RawReconciliation {
    pub retry_interval_seconds: Double,
    pub maximum_attempts: u8,
    pub dispatch_acceptance_margin_seconds: Double,
    pub dispatch_failure_backoff_seconds: Double,
}

/// Bits of `5.0`.
pub const FIVE_SECONDS: u64 = 0x4014_0000_0000_0000;

/// Bits of `0.5`.
pub const HALF_SECOND: u64 = 0x3fe0_0000_0000_0000;

impl Default for RawReconciliation {
    fn default() -> (result: Self)
        ensures
            result.retry_interval_seconds.bits == FIVE_SECONDS,
            result.maximum_attempts == 3,
            result.dispatch_acceptance_margin_seconds.bits == FIVE_SECONDS,
            result.dispatch_failure_backoff_seconds.bits == HALF_SECOND,
    {
        RawReconciliation {
            retry_interval_seconds: Double::from_bits(FIVE_SECONDS),
            maximum_attempts: 3,
            dispatch_acceptance_margin_seconds: Double::from_bits(FIVE_SECONDS),
            dispatch_failure_backoff_seconds: Double::from_bits(HALF_SECOND),
        }
    }
}

#[derive(Debug, Clone, Copy, PartialEq)]
pub struct ReconciliationTiming {
    pub retry_interval_seconds: Double,
    pub dispatch_acceptance_margin_seconds: Double,
    pub dispatch_failure_backoff_seconds: Double,
}

impl RawReconciliation {
    pub open spec fn timing_of(self) -> ReconciliationTiming {
        ReconciliationTiming {
            retry_interval_seconds: self.retry_interval_seconds,
            dispatch_acceptance_margin_seconds: self.dispatch_acceptance_margin_seconds,
            dispatch_failure_backoff_seconds: self.dispatch_failure_backoff_seconds,
        }
    }

    pub open spec fn accepted(self) -> RetryPolicy {
        RetryPolicy {
            interval_seconds: self.retry_interval_seconds,
            max_attempts: self.maximum_attempts,
            dispatch_acceptance_timeout_seconds: self.dispatch_acceptance_margin_seconds,
            dispatch_failure_backoff_seconds: self.dispatch_failure_backoff_seconds,
        }
    }

    pub open spec fn fault(self) -> Option<Problem> {
        if outside(
            self.retry_interval_seconds,
            MIN_OPERATIONAL_DURATION_SECONDS,
            MAX_RECONCILE_RETRY_INTERVAL_SECONDS,
        ) || outside(
            self.dispatch_acceptance_margin_seconds,
            MIN_OPERATIONAL_DURATION_SECONDS,
            MAX_DISPATCH_ACCEPTANCE_MARGIN_SECONDS,
        ) || outside(
            self.dispatch_failure_backoff_seconds,
            MIN_OPERATIONAL_DURATION_SECONDS,
            MAX_DISPATCH_FAILURE_BACKOFF_SECONDS,
        ) {
            Some(
                (
                    "reconciliation"@,
                    "timing must be between one millisecond and its documented one-house service ceiling"@,
                ),
            )
        } else if !self.accepted().wf() {
            Some(
                (
                    "reconciliation"@,
                    "intervals must be finite and positive; attempts must be 1..=10"@,
                ),
            )
        } else {
            None
        }
    }

    pub fn timing(&self) -> (timing: ReconciliationTiming)
        ensures
            timing == self.timing_of(),
    {
        ReconciliationTiming {
            retry_interval_seconds: self.retry_interval_seconds,
            dispatch_acceptance_margin_seconds: self.dispatch_acceptance_margin_seconds,
            dispatch_failure_backoff_seconds: self.dispatch_failure_backoff_seconds,
        }
    }

    pub fn validate(self) -> (result: Result<RetryPolicy, ConfigError>)
        ensures
            answers(result, self.fault()),
            result matches Ok(policy) ==> policy == self.accepted() && policy.wf(),
    {
        if is_outside(
            self.retry_interval_seconds,
            MIN_OPERATIONAL_DURATION_SECONDS,
            MAX_RECONCILE_RETRY_INTERVAL_SECONDS,
        ) || is_outside(
            self.dispatch_acceptance_margin_seconds,
            MIN_OPERATIONAL_DURATION_SECONDS,
            MAX_DISPATCH_ACCEPTANCE_MARGIN_SECONDS,
        ) || is_outside(
            self.dispatch_failure_backoff_seconds,
            MIN_OPERATIONAL_DURATION_SECONDS,
            MAX_DISPATCH_FAILURE_BACKOFF_SECONDS,
        ) {
            return Err(
                ConfigError::validation(
                    "reconciliation",
                    "timing must be between one millisecond and its documented one-house service ceiling",
                ),
            );
        }
        let problem = ConfigError::validation(
            "reconciliation",
            "intervals must be finite and positive; attempts must be 1..=10",
        );
        match RetryPolicy::new(self.retry_interval_seconds, self.maximum_attempts) {
            Ok(policy) => match policy.with_dispatch_timing(
                self.dispatch_acceptance_margin_seconds,
                self.dispatch_failure_backoff_seconds,
            ) {
                Ok(policy) => Ok(policy),
                Err(_) => Err(problem),
            },
            Err(_) => Err(problem),
        }
    }
}

/// What a numeric socket address says.
#[derive(Debug, Clone, Copy, PartialEq, Eq)]
pub struct BindAddress {
    pub port: u16,
    pub unspecified: bool,
    pub loopback: bool,
}

/// Where health is served; `address` is what `bind` reads as, none where it is no
/// numeric socket address.
#[derive(Debug, PartialEq)]
pub struct RawHealth {
    pub bind: String,
    pub address: Option<BindAddress>,
    pub allow_non_loopback: bool,
}

impl Default for RawHealth {
    fn default() -> (result: Self)
        ensures
            result.bind@ == "127.0.0.1:9876"@,
            result.address == Some(
                BindAddress { port: 9876, unspecified: false, loopback: true },
            ),
            !result.allow_non_loopback,
    {
        RawHealth {
            bind: String::from_str("127.0.0.1:9876"),
            address: Some(BindAddress { port: 9876, unspecified: false, loopback: true }),
            allow_non_loopback: false,
        }
    }
}

#[derive(Debug, PartialEq)]
pub struct HealthSettings {
    pub bind: String,
    pub address: BindAddress,
}

impl RawHealth {
    pub open spec fn fault(self) -> Option<Problem> {
        match self.address {
            None => Some(("health.bind"@, "must be a numeric IP socket address"@)),
            Some(address) => if address.port == 0 {
                Some(("health.bind"@, "port must be non-zero"@))
            } else if address.unspecified {
                Some(("health.bind"@, "wildcard addresses are not permitted"@))
            } else if !address.loopback && !self.allow_non_loopback {
                Some(
                    ("health.bind"@, "non-loopback address requires allow_non_loopback = true"@),
                )
            } else {
                None
            },
        }
    }

    pub fn validate(self) -> (result: Result<HealthSettings, ConfigError>)
        ensures
            answers(result, self.fault()),
            result matches Ok(settings) ==> settings.bind == self.bind && Some(settings.address)
                == self.address,
    {
        let address = match self.address {
            Some(address) => address,
            None => return Err(
                ConfigError::validation("health.bind", "must be a numeric IP socket address"),
            ),
        };
        if address.port == 0 {
            return Err(ConfigError::validation("health.bind", "port must be non-zero"));
        }
        if address.unspecified {
            return Err(
                ConfigError::validation("health.bind", "wildcard addresses are not permitted"),
            );
        }
        if !address.loopback && !self.allow_non_loopback {
            return Err(
                ConfigError::validation(
                    "health.bind",
                    "non-loopback address requires allow_non_loopback = true",
                ),
            );
        }
        Ok(HealthSettings { bind: self.bind, address })
    }
}

// Places in a text.

/// Number of line ends.
pub open spec fn line_ends(bytes: Seq<u8>) -> nat
    decreases bytes.len(),
{
    if bytes.len() == 0 {
        0
    } else {
        line_ends(bytes.drop_last()) + if bytes.last() == 10 {
            1nat
        } else {
            0
        }
    }
}

/// Number of bytes after the last line end.
pub open spec fn last_line(bytes: Seq<u8>) -> nat
    decreases bytes.len(),
{
    if bytes.len() == 0 || bytes.last() == 10 {
        0
    } else {
        1 + last_line(bytes.drop_last())
    }
}

/// The bytes before a place, all of them where it lies behind the end.
pub open spec fn bytes_before(input: Seq<char>, offset: usize) -> Seq<u8> {
    let bytes = text::bytes_of(input);
    bytes.take(
        if offset < bytes.len() {
            offset as int
        } else {
            bytes.len() as int
        },
    )
}

/// Line and column of a byte, both from one.
pub fn line_column(input: &str, offset: usize) -> (place: (usize, usize))
    requires
        text::bytes_of(input@).len() < usize::MAX,
    ensures
        place.0 == line_ends(bytes_before(input@, offset)) + 1,
        place.1 == last_line(bytes_before(input@, offset)) + 1,
{
    let bytes = input.as_bytes();
    let end: usize = if offset < bytes.len() {
        offset
    } else {
        bytes.len()
    };
    let ghost prefix = bytes_before(input@, offset);
    let mut line: usize = 1;
    let mut column: usize = 1;
    let mut i: usize = 0;
    assert(prefix.take(0) =~= Seq::<u8>::empty());
    while i < end
        invariant
            i <= end <= bytes@.len(),
            bytes@.len() < usize::MAX,
            prefix == bytes@.take(end as int),
            line == line_ends(prefix.take(i as int)) + 1,
            column == last_line(prefix.take(i as int)) + 1,
            line <= i + 1,
            column <= i + 1,
        decreases end - i,
    {
        proof {
            let next = prefix.take(i + 1);
            assert(next.drop_last() =~= prefix.take(i as int));
            assert(next.last() == bytes@[i as int]);
        }
        if bytes[i] == 10 {
            line = line + 1;
            column = 1;
        } else {
            column = column + 1;
        }
        i = i + 1;
    }
    assert(prefix.take(i as int) =~= prefix);
    (line, column)
}

/// A text is small enough to be read as a configuration.
pub fn accept_size(input: &str) -> (result: Result<(), ConfigError>)
    ensures
        match result {
            Ok(()) => text::bytes_of(input@).len() <= MAX_CONFIG_BYTES,
            Err(error) => text::bytes_of(input@).len() > MAX_CONFIG_BYTES && error
                == (ConfigError::TooLarge { maximum_bytes: MAX_CONFIG_BYTES }),
        },
{
    if input.as_bytes().len() > MAX_CONFIG_BYTES {
        return Err(ConfigError::TooLarge { maximum_bytes: MAX_CONFIG_BYTES });
    }
    Ok(())
}

/// The error for a text that could not be read; `offset` is the first byte that
/// was not understood, where that is known.
pub fn parse_failure(input: &str, offset: Option<usize>) -> (error: ConfigError)
    requires
        text::bytes_of(input@).len() <= MAX_CONFIG_BYTES,
    ensures
        error matches ConfigError::Parse { line, column } && match offset {
            Some(offset) => line == line_ends(bytes_before(input@, offset)) + 1 && column
                == last_line(bytes_before(input@, offset)) + 1,
            None => line == 0 && column == 0,
        },
{
    match offset {
        Some(offset) => {
            let (line, column) = line_column(input, offset);
            ConfigError::Parse { line, column }
        },
        None => ConfigError::Parse { line: 0, column: 0 },
    }
}

impl RawCircadian {
    /// Accepted curve timers are practical.
    pub proof fn timers_are_practical(self)
        requires
            self.fault() is None,
        ensures
            between(
                self.unfreeze_convergence_seconds,
                MIN_OPERATIONAL_DURATION_SECONDS,
                MAX_UNFREEZE_CONVERGENCE_SECONDS,
            ),
            between(
                self.tick_seconds,
                MIN_OPERATIONAL_DURATION_SECONDS,
                MAX_SPARSE_TICK_SECONDS,
            ),
            between(
                self.maximum_refresh_seconds,
                MIN_OPERATIONAL_DURATION_SECONDS,
                MAX_SPARSE_REFRESH_SECONDS,
            ),
            self.tick_seconds.at_most(self.maximum_refresh_seconds),
    {
    }
}

impl RawReconciliation {
    /// Accepted dispatch timers are practical, and tries are few.
    pub proof fn timers_are_practical(self)
        requires
            self.fault() is None,
        ensures
            between(
                self.retry_interval_seconds,
                MIN_OPERATIONAL_DURATION_SECONDS,
                MAX_RECONCILE_RETRY_INTERVAL_SECONDS,
            ),
            between(
                self.dispatch_acceptance_margin_seconds,
                MIN_OPERATIONAL_DURATION_SECONDS,
                MAX_DISPATCH_ACCEPTANCE_MARGIN_SECONDS,
            ),
            between(
                self.dispatch_failure_backoff_seconds,
                MIN_OPERATIONAL_DURATION_SECONDS,
                MAX_DISPATCH_FAILURE_BACKOFF_SECONDS,
            ),
            1 <= self.maximum_attempts <= 10,
    {
    }
}

} // verus!
