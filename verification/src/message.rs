//! Errors in words.
use crate::curve::CurveError;
use crate::double::Double;
use crate::input::{Direction, Gesture, InputError};
use crate::overlay::OverlayError;
use crate::reconcile::ReconcileError;
use crate::runtime::RuntimeError;
use crate::solar::ScheduleError;
use crate::state::{Scope, StateError};
use crate::value::ValueError;
use vstd::prelude::*;
use vstd::string::*;

verus! {

/// One decimal digit.
pub open spec fn digit_char(n: nat) -> char {
    if n == 0 {
        '0'
    } else if n == 1 {
        '1'
    } else if n == 2 {
        '2'
    } else if n == 3 {
        '3'
    } else if n == 4 {
        '4'
    } else if n == 5 {
        '5'
    } else if n == 6 {
        '6'
    } else if n == 7 {
        '7'
    } else if n == 8 {
        '8'
    } else {
        '9'
    }
}

/// `n` in decimal digits.
pub open spec fn decimal(n: nat) -> Seq<char>
    decreases n,
{
    if n < 10 {
        seq![digit_char(n)]
    } else {
        decimal(n / 10).push(digit_char(n % 10))
    }
}

fn digit(n: u64) -> (text: &'static str)
    requires
        n < 10,
    ensures
        text@ == seq![digit_char(n as nat)],
{
    proof {
        reveal_strlit("0");
        reveal_strlit("1");
        reveal_strlit("2");
        reveal_strlit("3");
        reveal_strlit("4");
        reveal_strlit("5");
        reveal_strlit("6");
        reveal_strlit("7");
        reveal_strlit("8");
        reveal_strlit("9");
    }
    let text = match n {
        0 => "0",
        1 => "1",
        2 => "2",
        3 => "3",
        4 => "4",
        5 => "5",
        6 => "6",
        7 => "7",
        8 => "8",
        _ => "9",
    };
    assert(text@ =~= seq![digit_char(n as nat)]);
    text
}

/// Writes `n` in decimal digits.
pub fn digits(n: u64) -> (text: String)
    ensures
        text@ == decimal(n as nat),
    decreases n,
{
    if n < 10 {
        String::from_str(digit(n))
    } else {
        let mut text = digits(n / 10);
        let ghost before = text@;
        text.append(digit(n % 10));
        assert(text@ =~= before.push(digit_char((n % 10) as nat)));
        text
    }
}

/// The nearest whole number in decimal digits.
pub open spec fn whole_text(value: Double) -> Seq<char> {
    decimal(value.rounded() as nat)
}

fn whole_number(value: Double) -> (text: String)
    ensures
        text@ == whole_text(value),
{
    digits(value.round_to_u64())
}

/// Puts two texts together.
pub fn joined(first: String, second: &str) -> (text: String)
    ensures
        text@ == first@ + second@,
{
    first.concat(second)
}

impl ValueError {
    /// The words for this value.
    pub open spec fn described(self) -> Seq<char> {
        match self {
            ValueError::NonFinite => "value must be finite"@,
            ValueError::OutOfRange { minimum, maximum } => "value must be between "@ + whole_text(minimum) + " and "@ + whole_text(maximum),
            ValueError::NonPositiveKelvin => "Kelvin value must be positive"@,
            ValueError::UnrepresentableMired => "Kelvin value must have a finite mired representation"@,
            ValueError::InvalidKelvinRange => "Kelvin range minimum must not exceed its maximum"@,
        }
    }

    pub fn message(&self) -> (text: String)
        ensures
            text@ == self.described(),
    {
        match self {
            ValueError::NonFinite => String::from_str("value must be finite"),
            ValueError::OutOfRange { minimum, maximum } => joined(joined(joined(String::from_str("value must be between "), whole_number(*minimum).as_str()), " and "), whole_number(*maximum).as_str()),
            ValueError::NonPositiveKelvin => String::from_str("Kelvin value must be positive"),
            ValueError::UnrepresentableMired => String::from_str("Kelvin value must have a finite mired representation"),
            ValueError::InvalidKelvinRange => String::from_str("Kelvin range minimum must not exceed its maximum"),
        }
    }
}

impl CurveError {
    /// The words for this value.
    pub open spec fn described(self) -> Seq<char> {
        match self {
            CurveError::InvalidTime => "time must fall within one local day"@,
            CurveError::TooFewAnchors => "circadian curve needs at least two anchors"@,
            CurveError::DuplicateAnchorTime(time) => "duplicate curve anchor at "@ + decimal(time.seconds as nat) + " seconds"@,
            CurveError::InvalidValue(error) => "invalid curve value: "@ + error.described(),
        }
    }

    pub fn message(&self) -> (text: String)
        ensures
            text@ == self.described(),
    {
        match self {
            CurveError::InvalidTime => String::from_str("time must fall within one local day"),
            CurveError::TooFewAnchors => String::from_str("circadian curve needs at least two anchors"),
            CurveError::DuplicateAnchorTime(time) => joined(joined(String::from_str("duplicate curve anchor at "), digits(time.seconds as u64).as_str()), " seconds"),
            CurveError::InvalidValue(error) => joined(String::from_str("invalid curve value: "), error.message().as_str()),
        }
    }
}

impl Scope {
    /// The words for this value.
    pub open spec fn described(self) -> Seq<char> {
        match self {
            Scope::Room(id) => "Room(ScopeId(\""@ + id.text@ + "\"))"@,
            Scope::Floor(id) => "Floor(ScopeId(\""@ + id.text@ + "\"))"@,
            Scope::House => "House"@,
        }
    }

    pub fn message(&self) -> (text: String)
        ensures
            text@ == self.described(),
    {
        match self {
            Scope::Room(id) => joined(joined(String::from_str("Room(ScopeId(\""), id.text.as_str()), "\"))"),
            Scope::Floor(id) => joined(joined(String::from_str("Floor(ScopeId(\""), id.text.as_str()), "\"))"),
            Scope::House => String::from_str("House"),
        }
    }
}

impl StateError {
    /// The words for this value.
    pub open spec fn described(self) -> Seq<char> {
        match self {
            StateError::InvalidIdentifier => "identifier must be 1..=64 ASCII lowercase letters/digits with internal '_' or '-'"@,
            StateError::InvalidLocalDate => "invalid Gregorian local date"@,
            StateError::LocalDateOutOfRange => "previous local date cannot be represented"@,
            StateError::NonFinite => "value must be finite"@,
            StateError::NegativeMonotonicTime => "monotonic time must not be negative"@,
            StateError::NonPositiveConvergenceDuration => "convergence duration must be greater than zero"@,
            StateError::MonotonicClockRegressed => "monotonic clock regressed"@,
            StateError::UnknownScope(scope) => "unknown scope "@ + scope.described(),
            StateError::UnknownControl(control) => "unknown control ControlId(\""@ + control.text@ + "\")"@,
            StateError::DuplicateScope(scope) => "duplicate scope "@ + scope.described(),
            StateError::DuplicateControl(control) => "duplicate control ControlId(\""@ + control.text@ + "\")"@,
            StateError::InvalidValue(error) => "invalid composed value: "@ + error.described(),
        }
    }

    pub fn message(&self) -> (text: String)
        ensures
            text@ == self.described(),
    {
        match self {
            StateError::InvalidIdentifier => String::from_str("identifier must be 1..=64 ASCII lowercase letters/digits with internal '_' or '-'"),
            StateError::InvalidLocalDate => String::from_str("invalid Gregorian local date"),
            StateError::LocalDateOutOfRange => String::from_str("previous local date cannot be represented"),
            StateError::NonFinite => String::from_str("value must be finite"),
            StateError::NegativeMonotonicTime => String::from_str("monotonic time must not be negative"),
            StateError::NonPositiveConvergenceDuration => String::from_str("convergence duration must be greater than zero"),
            StateError::MonotonicClockRegressed => String::from_str("monotonic clock regressed"),
            StateError::UnknownScope(scope) => joined(String::from_str("unknown scope "), scope.message().as_str()),
            StateError::UnknownControl(control) => joined(joined(String::from_str("unknown control ControlId(\""), control.text.as_str()), "\")"),
            StateError::DuplicateScope(scope) => joined(String::from_str("duplicate scope "), scope.message().as_str()),
            StateError::DuplicateControl(control) => joined(joined(String::from_str("duplicate control ControlId(\""), control.text.as_str()), "\")"),
            StateError::InvalidValue(error) => joined(String::from_str("invalid composed value: "), error.message().as_str()),
        }
    }
}

impl OverlayError {
    /// The words for this value.
    pub open spec fn described(self) -> Seq<char> {
        match self {
            OverlayError::InvalidIdentifier => "overlay identifier must be 1..=64 ASCII lowercase letters/digits with internal '_' or '-'"@,
            OverlayError::NonFinite => "overlay value must be finite"@,
            OverlayError::NonPositiveDuration => "overlay duration must be greater than zero"@,
            OverlayError::AmplitudeOutOfRange => "acknowledgement amplitude must be between 0.01 and 0.25 inclusive"@,
            OverlayError::EmptyScene => "overlay scene must set at least one field"@,
            OverlayError::ExpiryOverflow => "overlay expiry exceeds monotonic range"@,
            OverlayError::MonotonicClockRegressed => "monotonic clock regressed"@,
            OverlayError::SequenceExhausted => "overlay insertion sequence exhausted"@,
            OverlayError::InvalidValue(error) => "invalid composed overlay value: "@ + error.described(),
        }
    }

    pub fn message(&self) -> (text: String)
        ensures
            text@ == self.described(),
    {
        match self {
            OverlayError::InvalidIdentifier => String::from_str("overlay identifier must be 1..=64 ASCII lowercase letters/digits with internal '_' or '-'"),
            OverlayError::NonFinite => String::from_str("overlay value must be finite"),
            OverlayError::NonPositiveDuration => String::from_str("overlay duration must be greater than zero"),
            OverlayError::AmplitudeOutOfRange => String::from_str("acknowledgement amplitude must be between 0.01 and 0.25 inclusive"),
            OverlayError::EmptyScene => String::from_str("overlay scene must set at least one field"),
            OverlayError::ExpiryOverflow => String::from_str("overlay expiry exceeds monotonic range"),
            OverlayError::MonotonicClockRegressed => String::from_str("monotonic clock regressed"),
            OverlayError::SequenceExhausted => String::from_str("overlay insertion sequence exhausted"),
            OverlayError::InvalidValue(error) => joined(String::from_str("invalid composed overlay value: "), error.message().as_str()),
        }
    }
}

impl Direction {
    /// The words for this value.
    pub open spec fn described(self) -> Seq<char> {
        match self {
            Direction::Up => "Up"@,
            Direction::Down => "Down"@,
            Direction::Left => "Left"@,
            Direction::Right => "Right"@,
        }
    }

    pub fn message(&self) -> (text: String)
        ensures
            text@ == self.described(),
    {
        match self {
            Direction::Up => String::from_str("Up"),
            Direction::Down => String::from_str("Down"),
            Direction::Left => String::from_str("Left"),
            Direction::Right => String::from_str("Right"),
        }
    }
}

impl Gesture {
    /// The words for this value.
    pub open spec fn described(self) -> Seq<char> {
        match self {
            Gesture::Up => "Up"@,
            Gesture::Down => "Down"@,
            Gesture::Left => "Left"@,
            Gesture::Right => "Right"@,
            Gesture::CenterSingle => "CenterSingle"@,
            Gesture::CenterDouble => "CenterDouble"@,
            Gesture::CenterLong => "CenterLong"@,
            Gesture::CenterRelease => "CenterRelease"@,
            Gesture::DirectionHold(direction) => "DirectionHold("@ + direction.described() + ")"@,
            Gesture::DirectionRelease(direction) => "DirectionRelease("@ + direction.described() + ")"@,
        }
    }

    pub fn message(&self) -> (text: String)
        ensures
            text@ == self.described(),
    {
        match self {
            Gesture::Up => String::from_str("Up"),
            Gesture::Down => String::from_str("Down"),
            Gesture::Left => String::from_str("Left"),
            Gesture::Right => String::from_str("Right"),
            Gesture::CenterSingle => String::from_str("CenterSingle"),
            Gesture::CenterDouble => String::from_str("CenterDouble"),
            Gesture::CenterLong => String::from_str("CenterLong"),
            Gesture::CenterRelease => String::from_str("CenterRelease"),
            Gesture::DirectionHold(direction) => joined(joined(String::from_str("DirectionHold("), direction.message().as_str()), ")"),
            Gesture::DirectionRelease(direction) => joined(joined(String::from_str("DirectionRelease("), direction.message().as_str()), ")"),
        }
    }
}

impl InputError {
    /// The words for this value.
    pub open spec fn described(self) -> Seq<char> {
        match self {
            InputError::NonFinite => "input value must be finite"@,
            InputError::NonPositiveClickWindow => "click window must be greater than zero"@,
            InputError::NonPositiveHoldWindow => "hold window must be greater than zero"@,
            InputError::HoldWindowTooShort => "hold window must not be shorter than the click window"@,
            InputError::DeadlineOverflow => "click deadline exceeds monotonic range"@,
            InputError::MonotonicClockRegressed => "monotonic clock regressed"@,
            InputError::DuplicateGesture(gesture) => "gesture "@ + gesture.described() + " has more than one mapping"@,
            InputError::SelectScopeRequiresExplicitTarget => "select_scope action requires an explicit target"@,
            InputError::MissingToggleContext => "toggle_circadian action requires current curve and time"@,
            InputError::State(error) => "automation state error: "@ + error.described(),
        }
    }

    pub fn message(&self) -> (text: String)
        ensures
            text@ == self.described(),
    {
        match self {
            InputError::NonFinite => String::from_str("input value must be finite"),
            InputError::NonPositiveClickWindow => String::from_str("click window must be greater than zero"),
            InputError::NonPositiveHoldWindow => String::from_str("hold window must be greater than zero"),
            InputError::HoldWindowTooShort => String::from_str("hold window must not be shorter than the click window"),
            InputError::DeadlineOverflow => String::from_str("click deadline exceeds monotonic range"),
            InputError::MonotonicClockRegressed => String::from_str("monotonic clock regressed"),
            InputError::DuplicateGesture(gesture) => joined(joined(String::from_str("gesture "), gesture.message().as_str()), " has more than one mapping"),
            InputError::SelectScopeRequiresExplicitTarget => String::from_str("select_scope action requires an explicit target"),
            InputError::MissingToggleContext => String::from_str("toggle_circadian action requires current curve and time"),
            InputError::State(error) => joined(String::from_str("automation state error: "), error.message().as_str()),
        }
    }
}

impl ReconcileError {
    /// The words for this value.
    pub open spec fn described(self) -> Seq<char> {
        match self {
            ReconcileError::InvalidIdentifier => "identifier must be 1-64 lowercase ASCII letters, digits, hyphens, or underscores and start and end with a letter or digit"@,
            ReconcileError::InvalidRetryInterval => "retry interval must be finite and greater than zero"@,
            ReconcileError::InvalidRetryAttempts => "retry attempts must be between 1 and 10"@,
            ReconcileError::InvalidDispatchAcceptanceTimeout => "dispatch acceptance timeout must be finite and greater than zero"@,
            ReconcileError::InvalidDispatchFailureBackoff => "dispatch failure backoff must be finite and greater than zero"@,
            ReconcileError::RetryDeadlineOverflow => "retry deadline exceeds monotonic range"@,
            ReconcileError::DispatchAcceptanceDeadlineOverflow => "dispatch acceptance deadline exceeds monotonic range"@,
            ReconcileError::DispatchFailureDeadlineOverflow => "dispatch failure deadline exceeds monotonic range"@,
            ReconcileError::DispatchTokenOverflow => "dispatch token space exhausted"@,
            ReconcileError::DeferredSequenceOverflow => "deferred dispatch sequence space exhausted"@,
            ReconcileError::UnknownDispatchToken(token) => "unknown or completed dispatch token "@ + decimal(token.value as nat),
            ReconcileError::InvalidDispatchOperationCount => "dispatch plan must contain at least one operation"@,
            ReconcileError::UnregisteredDispatchPlan(token) => "dispatch token "@ + decimal(token.value as nat) + " has no registered adapter plan"@,
            ReconcileError::DispatchPlanMismatch(token) => "dispatch token "@ + decimal(token.value as nat) + " was registered with a different adapter plan"@,
            ReconcileError::UnexpectedDispatchOperation { expected, actual, operation_count } => "dispatch operation "@ + decimal(actual as nat) + " is out of order; expected "@ + decimal(expected as nat) + " of "@ + decimal(operation_count as nat),
            ReconcileError::InvalidColorGamut => "color gamut points must be finite, normalized, and non-collinear"@,
            ReconcileError::InvalidColorComparisonPolicy => "color comparison tolerance must be positive and normalized; achromatic threshold must be normalized"@,
            ReconcileError::MonotonicClockRegressed => "monotonic clock regressed"@,
            ReconcileError::DuplicateDevice(id) => "duplicate device "@ + id.text@,
            ReconcileError::UnknownDevice(id) => "unknown device "@ + id.text@,
            ReconcileError::DuplicateGroup(id) => "duplicate group "@ + id.text@,
            ReconcileError::UnknownGroup(id) => "unknown group "@ + id.text@,
            ReconcileError::EmptyGroup(id) => "group "@ + id.text@ + " has no members"@,
            ReconcileError::DuplicateGroupMember => "group contains duplicate member"@,
            ReconcileError::DeviceInMultipleGroups(id) => "device "@ + id.text@ + " belongs to multiple native physical sync groups; higher logical scopes must fan out instead"@,
        }
    }

    pub fn message(&self) -> (text: String)
        ensures
            text@ == self.described(),
    {
        match self {
            ReconcileError::InvalidIdentifier => String::from_str("identifier must be 1-64 lowercase ASCII letters, digits, hyphens, or underscores and start and end with a letter or digit"),
            ReconcileError::InvalidRetryInterval => String::from_str("retry interval must be finite and greater than zero"),
            ReconcileError::InvalidRetryAttempts => String::from_str("retry attempts must be between 1 and 10"),
            ReconcileError::InvalidDispatchAcceptanceTimeout => String::from_str("dispatch acceptance timeout must be finite and greater than zero"),
            ReconcileError::InvalidDispatchFailureBackoff => String::from_str("dispatch failure backoff must be finite and greater than zero"),
            ReconcileError::RetryDeadlineOverflow => String::from_str("retry deadline exceeds monotonic range"),
            ReconcileError::DispatchAcceptanceDeadlineOverflow => String::from_str("dispatch acceptance deadline exceeds monotonic range"),
            ReconcileError::DispatchFailureDeadlineOverflow => String::from_str("dispatch failure deadline exceeds monotonic range"),
            ReconcileError::DispatchTokenOverflow => String::from_str("dispatch token space exhausted"),
            ReconcileError::DeferredSequenceOverflow => String::from_str("deferred dispatch sequence space exhausted"),
            ReconcileError::UnknownDispatchToken(token) => joined(String::from_str("unknown or completed dispatch token "), digits(token.value).as_str()),
            ReconcileError::InvalidDispatchOperationCount => String::from_str("dispatch plan must contain at least one operation"),
            ReconcileError::UnregisteredDispatchPlan(token) => joined(joined(String::from_str("dispatch token "), digits(token.value).as_str()), " has no registered adapter plan"),
            ReconcileError::DispatchPlanMismatch(token) => joined(joined(String::from_str("dispatch token "), digits(token.value).as_str()), " was registered with a different adapter plan"),
            ReconcileError::UnexpectedDispatchOperation { expected, actual, operation_count } => joined(joined(joined(joined(joined(String::from_str("dispatch operation "), digits(*actual as u64).as_str()), " is out of order; expected "), digits(*expected as u64).as_str()), " of "), digits(*operation_count as u64).as_str()),
            ReconcileError::InvalidColorGamut => String::from_str("color gamut points must be finite, normalized, and non-collinear"),
            ReconcileError::InvalidColorComparisonPolicy => String::from_str("color comparison tolerance must be positive and normalized; achromatic threshold must be normalized"),
            ReconcileError::MonotonicClockRegressed => String::from_str("monotonic clock regressed"),
            ReconcileError::DuplicateDevice(id) => joined(String::from_str("duplicate device "), id.text.as_str()),
            ReconcileError::UnknownDevice(id) => joined(String::from_str("unknown device "), id.text.as_str()),
            ReconcileError::DuplicateGroup(id) => joined(String::from_str("duplicate group "), id.text.as_str()),
            ReconcileError::UnknownGroup(id) => joined(String::from_str("unknown group "), id.text.as_str()),
            ReconcileError::EmptyGroup(id) => joined(joined(String::from_str("group "), id.text.as_str()), " has no members"),
            ReconcileError::DuplicateGroupMember => String::from_str("group contains duplicate member"),
            ReconcileError::DeviceInMultipleGroups(id) => joined(joined(String::from_str("device "), id.text.as_str()), " belongs to multiple native physical sync groups; higher logical scopes must fan out instead"),
        }
    }
}

impl ScheduleError {
    /// The words for this value.
    pub open spec fn described(self) -> Seq<char> {
        match self {
            ScheduleError::MissingSolarEvents => "solar events of the day are not known"@,
            ScheduleError::Curve(error) => error.described(),
        }
    }

    pub fn message(&self) -> (text: String)
        ensures
            text@ == self.described(),
    {
        match self {
            ScheduleError::MissingSolarEvents => String::from_str(
                "solar events of the day are not known",
            ),
            ScheduleError::Curve(error) => error.message(),
        }
    }
}

impl RuntimeError {
    /// The words for this value.
    pub open spec fn described(self) -> Seq<char> {
        match self {
            RuntimeError::InvalidInstant => "invalid runtime instant"@,
            RuntimeError::InvalidTopology(problem) => "invalid runtime topology: "@
                + problem.described(),
            RuntimeError::UnknownDevice => "unknown runtime device"@,
            RuntimeError::UnknownControl => "unknown runtime control"@,
            RuntimeError::UnmappedGesture => "gesture is not mapped"@,
            RuntimeError::Schedule(error) => "curve schedule failed: "@ + error.described(),
            RuntimeError::State(error) => "state transition failed: "@ + error.described(),
            RuntimeError::Input(error) => "input classification failed: "@ + error.described(),
            RuntimeError::Overlay(error) => "overlay composition failed: "@ + error.described(),
            RuntimeError::Reconcile(error) => "reconciliation failed: "@ + error.described(),
            RuntimeError::Adapter(error) => "adapter operation failed: "@ + (error.context@ + ": "@
                + error.reason@),
        }
    }

    pub fn message(&self) -> (text: String)
        ensures
            text@ == self.described(),
    {
        match self {
            RuntimeError::InvalidInstant => String::from_str("invalid runtime instant"),
            RuntimeError::InvalidTopology(problem) => joined(
                String::from_str("invalid runtime topology: "),
                problem.message(),
            ),
            RuntimeError::UnknownDevice => String::from_str("unknown runtime device"),
            RuntimeError::UnknownControl => String::from_str("unknown runtime control"),
            RuntimeError::UnmappedGesture => String::from_str("gesture is not mapped"),
            RuntimeError::Schedule(error) => joined(
                String::from_str("curve schedule failed: "),
                error.message().as_str(),
            ),
            RuntimeError::State(error) => joined(
                String::from_str("state transition failed: "),
                error.message().as_str(),
            ),
            RuntimeError::Input(error) => joined(
                String::from_str("input classification failed: "),
                error.message().as_str(),
            ),
            RuntimeError::Overlay(error) => joined(
                String::from_str("overlay composition failed: "),
                error.message().as_str(),
            ),
            RuntimeError::Reconcile(error) => joined(
                String::from_str("reconciliation failed: "),
                error.message().as_str(),
            ),
            RuntimeError::Adapter(error) => joined(
                String::from_str("adapter operation failed: "),
                error.text().as_str(),
            ),
        }
    }
}

} // verus!
