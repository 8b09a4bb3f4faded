//! The house in a configuration: floors, rooms, curves, devices, groups, scopes
//! and controls.
use crate::color::{ColorComparisonPolicy, ColorGamut};
use crate::config::{ConfigError, Problem, ValidatedLocation, HUNDREDTH, ONE};
use crate::curve::{CircadianCurve, CurveAnchor, TimeOfDay};
use crate::double::Double;
use crate::input::{Action, FiniteDelta, Gesture, Mapping, MappingEntry, ScopeTarget};
use crate::reconcile::{DeviceDefinition, DeviceId, EntityId, GroupDefinition};
use crate::solar::{CircadianSchedule, SolarHybridCurve, WinterHold};
use crate::state::{ControlId, Scope, ScopeId, ScopeMembership};
use crate::ordered::OrderedKey;
use crate::text;
use crate::value::{Brightness, Capabilities, Kelvin, KelvinRange, MIRED_SCALE};
use crate::zigbee2mqtt::{ControlBinding, DeviceBinding, GroupBinding, MiredRange};
use vstd::prelude::*;
use vstd::string::*;

verus! {

/// The first problem among the first `n` items.
pub open spec fn first_problem(n: int, at: spec_fn(int) -> Option<Problem>) -> Option<Problem>
    decreases n,
{
    if n <= 0 {
        None
    } else {
        match first_problem(n - 1, at) {
            Some(problem) => Some(problem),
            None => at(n - 1),
        }
    }
}

/// Later items do not change the first problem.
proof fn lemma_first_problem(n: int, m: int, at: spec_fn(int) -> Option<Problem>)
    requires
        0 <= m <= n,
        first_problem(m, at) is Some,
    ensures
        first_problem(n, at) == first_problem(m, at),
    decreases n,
{
    if m < n {
        lemma_first_problem(n - 1, m, at);
    }
}

/// The first of two possible problems.
pub open spec fn first_of(a: Option<Problem>, b: Option<Problem>) -> Option<Problem> {
    match a {
        Some(problem) => Some(problem),
        None => b,
    }
}

/// Why a name cannot be an identifier.
pub open spec fn identifier_fault(value: Seq<char>, field: Seq<char>) -> Option<Problem> {
    if text::identifier(value) {
        None
    } else {
        Some((field, "invalid lowercase identifier"@))
    }
}

fn scope_id(value: &String, field: &'static str) -> (result: Result<ScopeId, ConfigError>)
    ensures
        crate::config::answers(result, identifier_fault(value@, field@)),
        result matches Ok(id) ==> id.text == *value,
{
    match ScopeId::new(value.clone()) {
        Ok(id) => Ok(id),
        Err(_) => Err(ConfigError::validation(field, "invalid lowercase identifier")),
    }
}

fn device_id(value: &String, field: &'static str) -> (result: Result<DeviceId, ConfigError>)
    ensures
        crate::config::answers(result, identifier_fault(value@, field@)),
        result matches Ok(id) ==> id.text == *value,
{
    match DeviceId::new(value.clone()) {
        Ok(id) => Ok(id),
        Err(_) => Err(ConfigError::validation(field, "invalid lowercase identifier")),
    }
}

fn entity_id(value: &String, field: &'static str) -> (result: Result<EntityId, ConfigError>)
    ensures
        crate::config::answers(result, identifier_fault(value@, field@)),
        result matches Ok(id) ==> id.text == *value,
{
    match EntityId::new(value.clone()) {
        Ok(id) => Ok(id),
        Err(_) => Err(ConfigError::validation(field, "invalid lowercase identifier")),
    }
}

fn control_id(value: &String, field: &'static str) -> (result: Result<ControlId, ConfigError>)
    ensures
        crate::config::answers(result, identifier_fault(value@, field@)),
        result matches Ok(id) ==> id.text == *value,
{
    match ControlId::new(value.clone()) {
        Ok(id) => Ok(id),
        Err(_) => Err(ConfigError::validation(field, "invalid lowercase identifier")),
    }
}

// Capabilities.

#[derive(Debug, Clone, Copy, PartialEq)]
pub struct RawColorTemperature {
    pub minimum_kelvin: Double,
    pub maximum_kelvin: Double,
    pub minimum_mired: Option<u16>,
    pub maximum_mired: Option<u16>,
}

#[derive(Debug, Clone, Copy, PartialEq)]
pub struct RawCapabilities {
    pub on_off: bool,
    pub dimming: bool,
    pub color_temperature: Option<RawColorTemperature>,
    pub color_xy: bool,
    pub color_hs: bool,
    pub input: bool,
    pub occupancy: bool,
    pub temperature: bool,
    pub power_metering: bool,
}

impl Default for RawCapabilities {
    fn default() -> (result: Self)
        ensures
            result == (RawCapabilities {
                on_off: false,
                dimming: false,
                color_temperature: None,
                color_xy: false,
                color_hs: false,
                input: false,
                occupancy: false,
                temperature: false,
                power_metering: false,
            }),
    {
        RawCapabilities {
            on_off: false,
            dimming: false,
            color_temperature: None,
            color_xy: false,
            color_hs: false,
            input: false,
            occupancy: false,
            temperature: false,
            power_metering: false,
        }
    }
}

/// The colour temperature that `mired` shows is more than one hundredth away
/// from `endpoint`.
pub open spec fn strays(endpoint: Double, mired: u16) -> bool {
    let shown = (Double { bits: MIRED_SCALE }).quotient(Double::of_nat(mired as nat));
    endpoint.product(Double { bits: HUNDREDTH }).less(endpoint.difference(shown).magnitude())
}

/// Both ends of a range survive the way to mireds and back, and the ends of the
/// mired range show the ends of the range.
pub open spec fn round_trips(kelvin: KelvinRange, mired: MiredRange) -> bool {
    let scale = Double { bits: MIRED_SCALE };
    &&& !strays(kelvin.min.value, mired.limited(scale.quotient(kelvin.min.value)))
    &&& !strays(kelvin.max.value, mired.limited(scale.quotient(kelvin.max.value)))
    &&& !strays(kelvin.max.value, mired.min)
    &&& !strays(kelvin.min.value, mired.max)
}

fn is_astray(endpoint: Double, mired: u16) -> (result: bool)
    ensures
        result == strays(endpoint, mired),
{
    let shown = Double::from_bits(MIRED_SCALE).over(Double::from_u64(mired as u64));
    endpoint.times(Double::from_bits(HUNDREDTH)).lt(endpoint.minus(shown).abs())
}

pub fn validate_cct_round_trip(kelvin: KelvinRange, mired: MiredRange) -> (result: bool)
    ensures
        result == round_trips(kelvin, mired),
{
    let scale = Double::from_bits(MIRED_SCALE);
    let low = kelvin.min().get();
    let high = kelvin.max().get();
    !is_astray(low, mired.clamp(scale.over(low))) && !is_astray(
        high,
        mired.clamp(scale.over(high)),
    ) && !is_astray(high, mired.min()) && !is_astray(low, mired.max())
}

impl RawColorTemperature {
    pub open spec fn fault(self, field: Seq<char>, require_mired: bool) -> Option<Problem> {
        let kelvin = KelvinRange::checked(self.minimum_kelvin, self.maximum_kelvin);
        if kelvin is Err {
            Some((field, "invalid Kelvin range"@))
        } else {
            match (self.minimum_mired, self.maximum_mired) {
                (Some(min), Some(max)) => if !(MiredRange { min, max }).wf() {
                    Some((field, "invalid mired range"@))
                } else if !round_trips(kelvin->Ok_0, MiredRange { min, max }) {
                    Some((field, "Kelvin and mired endpoints must round-trip within 1%"@))
                } else {
                    None
                },
                (None, None) => if require_mired {
                    Some(
                        (
                            field,
                            "device CCT minimum_mired and maximum_mired must both be present"@,
                        ),
                    )
                } else {
                    None
                },
                _ => Some(
                    (
                        field,
                        "minimum_mired and maximum_mired must both be present or both be omitted"@,
                    ),
                ),
            }
        }
    }

    pub open spec fn kelvin(self) -> KelvinRange {
        KelvinRange::checked(self.minimum_kelvin, self.maximum_kelvin)->Ok_0
    }

    pub open spec fn mired(self) -> Option<MiredRange> {
        match (self.minimum_mired, self.maximum_mired) {
            (Some(min), Some(max)) => Some(MiredRange { min, max }),
            _ => None,
        }
    }

    fn validate(self, field: &'static str, require_mired: bool) -> (result: Result<
        (KelvinRange, Option<MiredRange>),
        ConfigError,
    >)
        ensures
            crate::config::answers(result, self.fault(field@, require_mired)),
            result matches Ok(ranges) ==> ranges.0 == self.kelvin() && ranges.1 == self.mired()
                && ranges.0.wf(),
    {
        let kelvin = match KelvinRange::new(self.minimum_kelvin, self.maximum_kelvin) {
            Ok(kelvin) => kelvin,
            Err(_) => return Err(ConfigError::validation(field, "invalid Kelvin range")),
        };
        let mired = match (self.minimum_mired, self.maximum_mired) {
            (Some(minimum), Some(maximum)) => {
                let range = match MiredRange::new(minimum, maximum) {
                    Ok(range) => range,
                    Err(_) => return Err(ConfigError::validation(field, "invalid mired range")),
                };
                if !validate_cct_round_trip(kelvin, range) {
                    return Err(
                        ConfigError::validation(
                            field,
                            "Kelvin and mired endpoints must round-trip within 1%",
                        ),
                    );
                }
                Some(range)
            },
            (None, None) => {
                if require_mired {
                    return Err(
                        ConfigError::validation(
                            field,
                            "device CCT minimum_mired and maximum_mired must both be present",
                        ),
                    );
                }
                None
            },
            _ => return Err(
                ConfigError::validation(
                    field,
                    "minimum_mired and maximum_mired must both be present or both be omitted",
                ),
            ),
        };
        Ok((kelvin, mired))
    }
}

impl RawCapabilities {
    pub open spec fn fault(self, field: Seq<char>, require_mired: bool) -> Option<Problem> {
        let lighting = self.dimming || self.color_temperature is Some || self.color_xy
            || self.color_hs;
        if !(self.on_off || lighting || self.input || self.occupancy || self.temperature
            || self.power_metering) {
            Some((field, "at least one capability is required"@))
        } else if lighting && !self.on_off {
            Some((field, "lighting capabilities require on_off"@))
        } else {
            match self.color_temperature {
                Some(range) => range.fault(field, require_mired),
                None => None,
            }
        }
    }

    pub open spec fn accepted(self) -> Capabilities {
        Capabilities {
            on_off: self.on_off,
            dimming: self.dimming,
            color_temperature: match self.color_temperature {
                Some(range) => Some(range.kelvin()),
                None => None,
            },
            color_xy: self.color_xy,
            color_hs: self.color_hs,
            input: self.input,
            occupancy: self.occupancy,
            temperature: self.temperature,
            power_metering: self.power_metering,
        }
    }

    pub open spec fn mired(self) -> Option<MiredRange> {
        match self.color_temperature {
            Some(range) => range.mired(),
            None => None,
        }
    }

    pub fn validate(self, field: &'static str, require_mired: bool) -> (result: Result<
        (Capabilities, Option<MiredRange>),
        ConfigError,
    >)
        ensures
            crate::config::answers(result, self.fault(field@, require_mired)),
            result matches Ok(found) ==> found.0 == self.accepted() && found.1 == self.mired(),
    {
        let lighting = self.dimming || self.color_temperature.is_some() || self.color_xy
            || self.color_hs;
        if !(self.on_off || lighting || self.input || self.occupancy || self.temperature
            || self.power_metering) {
            return Err(ConfigError::validation(field, "at least one capability is required"));
        }
        if lighting && !self.on_off {
            return Err(ConfigError::validation(field, "lighting capabilities require on_off"));
        }
        let (color_temperature, mired_range) = match self.color_temperature {
            Some(range) => match range.validate(field, require_mired) {
                Ok((kelvin, mired)) => (Some(kelvin), mired),
                Err(error) => return Err(error),
            },
            None => (None, None),
        };
        Ok(
            (
                Capabilities {
                    on_off: self.on_off,
                    dimming: self.dimming,
                    color_temperature,
                    color_xy: self.color_xy,
                    color_hs: self.color_hs,
                    input: self.input,
                    occupancy: self.occupancy,
                    temperature: self.temperature,
                    power_metering: self.power_metering,
                },
                mired_range,
            ),
        )
    }
}

/// Everything that a group does, its member does too.
pub open spec fn supported(group: Capabilities, member: Capabilities) -> bool {
    &&& group.on_off ==> member.on_off
    &&& group.dimming ==> member.dimming
    &&& match (group.color_temperature, member.color_temperature) {
        (None, _) => true,
        (Some(group), Some(member)) => member.min.value.at_most(group.min.value)
            && group.max.value.at_most(member.max.value),
        (Some(_), None) => false,
    }
    &&& group.color_xy ==> member.color_xy
    &&& group.color_hs ==> member.color_hs
    &&& group.input ==> member.input
    &&& group.occupancy ==> member.occupancy
    &&& group.temperature ==> member.temperature
    &&& group.power_metering ==> member.power_metering
}

pub fn capabilities_subset(group: Capabilities, member: Capabilities) -> (result: bool)
    ensures
        result == supported(group, member),
{
    let warmth = match (group.color_temperature, member.color_temperature) {
        (None, _) => true,
        (Some(group), Some(member)) => member.min().get().le(group.min().get())
            && group.max().get().le(member.max().get()),
        (Some(_), None) => false,
    };
    (!group.on_off || member.on_off) && (!group.dimming || member.dimming) && warmth && (
    !group.color_xy || member.color_xy) && (!group.color_hs || member.color_hs) && (!group.input
        || member.input) && (!group.occupancy || member.occupancy) && (!group.temperature
        || member.temperature) && (!group.power_metering || member.power_metering)
}

/// The member's mired range holds the group's.
pub open spec fn mired_supported(group: Option<MiredRange>, member: Option<MiredRange>) -> bool {
    match (group, member) {
        (None, _) => true,
        (Some(group), Some(member)) => group.min >= member.min && group.max <= member.max,
        (Some(_), None) => false,
    }
}

pub fn mired_subset(group: Option<MiredRange>, member: Option<MiredRange>) -> (result: bool)
    ensures
        result == mired_supported(group, member),
{
    match (group, member) {
        (None, _) => true,
        (Some(group), Some(member)) => group.min() >= member.min() && group.max() <= member.max(),
        (Some(_), None) => false,
    }
}

// Colours.

#[derive(Debug, Clone, Copy, PartialEq)]
pub struct RawGamut {
    pub red: (Double, Double),
    pub green: (Double, Double),
    pub blue: (Double, Double),
}

#[derive(Debug, Clone, Copy, PartialEq)]
pub struct RawColorComparison {
    pub xy_tolerance: Double,
    pub achromatic_saturation_threshold: Double,
    pub gamut: Option<RawGamut>,
}

impl Default for RawColorComparison {
    fn default() -> (result: Self)
        ensures
            result == RawColorComparison::standard(),
    {
        RawColorComparison {
            xy_tolerance: Double::from_bits(crate::color::DEFAULT_XY_TOLERANCE),
            achromatic_saturation_threshold: Double::from_bits(
                crate::color::DEFAULT_ACHROMATIC_THRESHOLD,
            ),
            gamut: None,
        }
    }
}

impl RawColorComparison {
    pub open spec fn standard() -> RawColorComparison {
        RawColorComparison {
            xy_tolerance: Double { bits: crate::color::DEFAULT_XY_TOLERANCE },
            achromatic_saturation_threshold: Double {
                bits: crate::color::DEFAULT_ACHROMATIC_THRESHOLD,
            },
            gamut: None,
        }
    }

    pub open spec fn accepted(self) -> ColorComparisonPolicy {
        ColorComparisonPolicy {
            gamut: match self.gamut {
                Some(gamut) => Some(
                    ColorGamut { red: gamut.red, green: gamut.green, blue: gamut.blue },
                ),
                None => None,
            },
            xy_tolerance: self.xy_tolerance,
            achromatic_saturation_threshold: self.achromatic_saturation_threshold,
        }
    }

    pub open spec fn fault(self) -> Option<Problem> {
        if self.accepted().gamut matches Some(gamut) && !gamut.wf() {
            Some(
                (
                    "devices.color_comparison.gamut"@,
                    "points must be finite, normalized, and non-collinear"@,
                ),
            )
        } else if !self.accepted().valid() {
            Some(("devices.color_comparison"@, "tolerances must be finite and normalized"@))
        } else {
            None
        }
    }

    pub fn validate(self) -> (result: Result<ColorComparisonPolicy, ConfigError>)
        ensures
            crate::config::answers(result, self.fault()),
            result matches Ok(policy) ==> policy == self.accepted(),
    {
        let gamut = match self.gamut {
            Some(gamut) => match ColorGamut::new(gamut.red, gamut.green, gamut.blue) {
                Ok(gamut) => Some(gamut),
                Err(_) => return Err(
                    ConfigError::validation(
                        "devices.color_comparison.gamut",
                        "points must be finite, normalized, and non-collinear",
                    ),
                ),
            },
            None => None,
        };
        match ColorComparisonPolicy::new(
            gamut,
            self.xy_tolerance,
            self.achromatic_saturation_threshold,
        ) {
            Ok(policy) => Ok(policy),
            Err(_) => Err(
                ConfigError::validation(
                    "devices.color_comparison",
                    "tolerances must be finite and normalized",
                ),
            ),
        }
    }
}

// Actions.

#[derive(Debug, Clone, Copy, PartialEq)]
pub enum RawAction {
    AdjustBrightnessOffset { delta: Double },
    AdjustColorTemperatureOffset { delta_kelvin: Double },
    TogglePower,
    ToggleCircadianWithAcknowledgement,
    SelectScope,
}

/// Bits of `10000.0`.
pub const MAX_KELVIN_STEP: u64 = 0x40c3_8800_0000_0000;

impl RawAction {
    pub open spec fn fault(self) -> Option<Problem> {
        match self {
            RawAction::AdjustBrightnessOffset { delta } => if !delta.finite()
                || crate::config::no_step(delta, Double { bits: ONE }) {
                Some(
                    (
                        "controls.mappings.action.delta"@,
                        "must be finite, non-zero, and between -1 and 1"@,
                    ),
                )
            } else {
                None
            },
            RawAction::AdjustColorTemperatureOffset { delta_kelvin } => if !delta_kelvin.finite()
                || crate::config::no_step(delta_kelvin, Double { bits: MAX_KELVIN_STEP }) {
                Some(
                    (
                        "controls.mappings.action.delta_kelvin"@,
                        "must be finite, non-zero, and no greater than 10000 K in magnitude"@,
                    ),
                )
            } else {
                None
            },
            _ => None,
        }
    }

    pub open spec fn accepted(self) -> Action {
        match self {
            RawAction::AdjustBrightnessOffset { delta } => Action::AdjustBrightnessOffset(
                FiniteDelta { value: delta },
            ),
            RawAction::AdjustColorTemperatureOffset { delta_kelvin } =>
                Action::AdjustColorTemperatureOffset(FiniteDelta { value: delta_kelvin }),
            RawAction::TogglePower => Action::TogglePower,
            RawAction::ToggleCircadianWithAcknowledgement => Action::ToggleCircadian,
            RawAction::SelectScope => Action::SelectScope,
        }
    }

    pub open spec fn acknowledges(self) -> bool {
        self is ToggleCircadianWithAcknowledgement
    }

    pub fn validate(self) -> (result: Result<(Action, bool), ConfigError>)
        ensures
            crate::config::answers(result, self.fault()),
            result matches Ok(found) ==> found.0 == self.accepted() && found.1
                == self.acknowledges(),
    {
        match self {
            RawAction::AdjustBrightnessOffset { delta } => {
                let problem = ConfigError::validation(
                    "controls.mappings.action.delta",
                    "must be finite, non-zero, and between -1 and 1",
                );
                match Action::brightness_offset(delta) {
                    Ok(action) => {
                        if crate::config::is_no_step(delta, Double::from_bits(ONE)) {
                            return Err(problem);
                        }
                        Ok((action, false))
                    },
                    Err(_) => Err(problem),
                }
            },
            RawAction::AdjustColorTemperatureOffset { delta_kelvin } => {
                let problem = ConfigError::validation(
                    "controls.mappings.action.delta_kelvin",
                    "must be finite, non-zero, and no greater than 10000 K in magnitude",
                );
                match Action::color_temperature_offset(delta_kelvin) {
                    Ok(action) => {
                        if crate::config::is_no_step(
                            delta_kelvin,
                            Double::from_bits(MAX_KELVIN_STEP),
                        ) {
                            return Err(problem);
                        }
                        Ok((action, false))
                    },
                    Err(_) => Err(problem),
                }
            },
            RawAction::TogglePower => Ok((Action::TogglePower, false)),
            RawAction::ToggleCircadianWithAcknowledgement => Ok((Action::ToggleCircadian, true)),
            RawAction::SelectScope => Ok((Action::SelectScope, false)),
        }
    }
}

// Floors and rooms.

#[derive(Debug, PartialEq)]
pub struct RawFloor {
    pub id: String,
}

#[derive(Debug, PartialEq)]
pub struct RawRoom {
    pub id: String,
    pub floor: String,
}

/// One of the first `n` floors has this name.
pub open spec fn has_floor(floors: Seq<RawFloor>, n: int, name: Seq<char>) -> bool {
    exists|i: int| 0 <= i < n && (#[trigger] floors[i]).id@ == name
}

pub open spec fn floor_fault(floors: Seq<RawFloor>, k: int) -> Option<Problem> {
    first_of(
        identifier_fault(floors[k].id@, "floors"@),
        if has_floor(floors, k, floors[k].id@) {
            Some(("floors"@, "duplicate identifier"@))
        } else {
            None
        },
    )
}

pub open spec fn floor_faults(floors: Seq<RawFloor>) -> spec_fn(int) -> Option<Problem> {
    |k: int| floor_fault(floors, k)
}

pub open spec fn floors_fault(floors: Seq<RawFloor>) -> Option<Problem> {
    if floors.len() == 0 {
        Some(("floors"@, "must not be empty"@))
    } else {
        first_problem(floors.len() as int, floor_faults(floors))
    }
}

fn find_floor(floors: &Vec<RawFloor>, n: usize, name: &str) -> (found: bool)
    requires
        n <= floors@.len(),
    ensures
        found == has_floor(floors@, n as int, name@),
{
    let mut i: usize = 0;
    while i < n
        invariant
            i <= n <= floors@.len(),
            forall|j: int| 0 <= j < i ==> (#[trigger] floors@[j]).id@ != name@,
        decreases n - i,
    {
        if text::text_equals(floors[i].id.as_str(), name) {
            assert(floors@[i as int].id@ == name@);
            return true;
        }
        i = i + 1;
    }
    false
}

pub fn validate_floors(floors: &Vec<RawFloor>) -> (result: Result<(), ConfigError>)
    ensures
        crate::config::answers(result, floors_fault(floors@)),
{
    if floors.len() == 0 {
        return Err(ConfigError::validation("floors", "must not be empty"));
    }
    let ghost faults = floor_faults(floors@);
    let mut i: usize = 0;
    while i < floors.len()
        invariant
            i <= floors@.len(),
            floors@.len() > 0,
            faults == floor_faults(floors@),
            first_problem(i as int, faults) is None,
        decreases floors@.len() - i,
    {
        assert(faults(i as int) == floor_fault(floors@, i as int));
        match scope_id(&floors[i].id, "floors") {
            Ok(_) => {},
            Err(error) => {
                proof {
                    lemma_first_problem(floors@.len() as int, i + 1, faults);
                }
                return Err(error);
            },
        }
        if find_floor(floors, i, floors[i].id.as_str()) {
            proof {
                lemma_first_problem(floors@.len() as int, i + 1, faults);
            }
            return Err(ConfigError::validation("floors", "duplicate identifier"));
        }
        i = i + 1;
    }
    Ok(())
}

pub open spec fn has_room(rooms: Seq<RawRoom>, n: int, name: Seq<char>) -> bool {
    exists|i: int| 0 <= i < n && (#[trigger] rooms[i]).id@ == name
}

/// First place of a room among the first `n`; `n` where it is not there.
pub open spec fn room_place(rooms: Seq<RawRoom>, n: int, name: Seq<char>) -> int
    decreases n,
{
    if n <= 0 {
        0
    } else {
        let before = room_place(rooms, n - 1, name);
        if before < n - 1 || rooms[n - 1].id@ == name {
            before
        } else {
            n
        }
    }
}

pub open spec fn room_fault(rooms: Seq<RawRoom>, floors: Seq<RawFloor>, k: int) -> Option<Problem> {
    first_of(
        identifier_fault(rooms[k].id@, "rooms"@),
        first_of(
            identifier_fault(rooms[k].floor@, "rooms.floor"@),
            if !has_floor(floors, floors.len() as int, rooms[k].floor@) {
                Some(("rooms.floor"@, "references unknown floor"@))
            } else if has_room(rooms, k, rooms[k].id@) {
                Some(("rooms"@, "duplicate identifier"@))
            } else {
                None
            },
        ),
    )
}

pub open spec fn room_faults(rooms: Seq<RawRoom>, floors: Seq<RawFloor>) -> spec_fn(int) -> Option<
    Problem,
> {
    |k: int| room_fault(rooms, floors, k)
}

pub open spec fn rooms_fault(rooms: Seq<RawRoom>, floors: Seq<RawFloor>) -> Option<Problem> {
    if rooms.len() == 0 {
        Some(("rooms"@, "must not be empty"@))
    } else {
        first_problem(rooms.len() as int, room_faults(rooms, floors))
    }
}

proof fn lemma_room_place(rooms: Seq<RawRoom>, n: int, name: Seq<char>)
    requires
        0 <= n <= rooms.len(),
    ensures
        0 <= room_place(rooms, n, name) <= n,
        room_place(rooms, n, name) < n ==> rooms[room_place(rooms, n, name)].id@ == name,
        (room_place(rooms, n, name) < n) == has_room(rooms, n, name),
    decreases n,
{
    if n > 0 {
        lemma_room_place(rooms, n - 1, name);
        if has_room(rooms, n - 1, name) {
            let i = choose|i: int| 0 <= i < n - 1 && (#[trigger] rooms[i]).id@ == name;
            assert(rooms[i].id@ == name);
        }
        if has_room(rooms, n, name) && rooms[n - 1].id@ != name {
            let i = choose|i: int| 0 <= i < n && (#[trigger] rooms[i]).id@ == name;
            assert(i < n - 1);
        }
        if rooms[n - 1].id@ == name {
            assert(has_room(rooms, n, name));
        }
    }
}

fn find_room(rooms: &Vec<RawRoom>, n: usize, name: &str) -> (place: usize)
    requires
        n <= rooms@.len(),
    ensures
        place == room_place(rooms@, n as int, name@),
        place <= n,
        (place < n) == has_room(rooms@, n as int, name@),
        place < n ==> rooms@[place as int].id@ == name@,
{
    let mut place: usize = 0;
    let mut i: usize = 0;
    while i < n
        invariant
            i <= n <= rooms@.len(),
            place == room_place(rooms@, i as int, name@),
            place <= i,
        decreases n - i,
    {
        if place == i && !text::text_equals(rooms[i].id.as_str(), name) {
            place = i + 1;
        }
        i = i + 1;
    }
    proof {
        lemma_room_place(rooms@, n as int, name@);
    }
    place
}

pub fn validate_rooms(rooms: &Vec<RawRoom>, floors: &Vec<RawFloor>) -> (result: Result<
    (),
    ConfigError,
>)
    ensures
        crate::config::answers(result, rooms_fault(rooms@, floors@)),
{
    if rooms.len() == 0 {
        return Err(ConfigError::validation("rooms", "must not be empty"));
    }
    let ghost faults = room_faults(rooms@, floors@);
    let mut i: usize = 0;
    while i < rooms.len()
        invariant
            i <= rooms@.len(),
            rooms@.len() > 0,
            faults == room_faults(rooms@, floors@),
            first_problem(i as int, faults) is None,
        decreases rooms@.len() - i,
    {
        assert(faults(i as int) == room_fault(rooms@, floors@, i as int));
        match validate_room(rooms, floors, i) {
            Ok(()) => {},
            Err(error) => {
                proof {
                    lemma_first_problem(rooms@.len() as int, i + 1, faults);
                }
                return Err(error);
            },
        }
        i = i + 1;
    }
    Ok(())
}

fn validate_room(rooms: &Vec<RawRoom>, floors: &Vec<RawFloor>, k: usize) -> (result: Result<
    (),
    ConfigError,
>)
    requires
        k < rooms@.len(),
    ensures
        crate::config::answers(result, room_fault(rooms@, floors@, k as int)),
{
    match scope_id(&rooms[k].id, "rooms") {
        Ok(_) => {},
        Err(error) => return Err(error),
    }
    match scope_id(&rooms[k].floor, "rooms.floor") {
        Ok(_) => {},
        Err(error) => return Err(error),
    }
    if !find_floor(floors, floors.len(), rooms[k].floor.as_str()) {
        return Err(ConfigError::validation("rooms.floor", "references unknown floor"));
    }
    if find_room(rooms, k, rooms[k].id.as_str()) < k {
        return Err(ConfigError::validation("rooms", "duplicate identifier"));
    }
    Ok(())
}

// Curves.

#[derive(Debug, PartialEq)]
pub struct RawAnchor {
    pub time: String,
    pub brightness: Double,
    pub color_temperature_kelvin: Double,
}

#[derive(Debug, PartialEq)]
pub struct RawWinterHold {
    pub start: String,
    pub end: String,
    pub reference: String,
}

#[derive(Debug, Clone, Copy, PartialEq, Eq)]
pub enum RawCurveKind {
    Fixed,
    SolarHybrid,
}

#[derive(Debug, PartialEq)]
pub struct RawCurve {
    pub id: String,
    pub kind: RawCurveKind,
    pub anchors: Option<Vec<RawAnchor>>,
    pub wake_time: Option<String>,
    pub bed_time: Option<String>,
    pub night_brightness: Option<Double>,
    pub day_brightness: Option<Double>,
    pub night_color_temperature_kelvin: Option<Double>,
    pub day_color_temperature_kelvin: Option<Double>,
    pub winter_hold: Option<RawWinterHold>,
}

/// A curve by its name.
#[derive(Debug)]
pub struct CurveConfiguration {
    pub id: ScopeId,
    pub schedule: CircadianSchedule,
}

impl RawAnchor {
    pub open spec fn fault(self) -> Option<Problem> {
        if crate::config::clock_time(self.time@) is None {
            Some(("curves.anchors.time"@, "must be HH:MM or HH:MM:SS"@))
        } else if crate::value::in_range(
            self.brightness,
            Double { bits: 0 },
            Double { bits: ONE },
        ) is Err {
            Some(("curves.anchors.brightness"@, "must be between 0 and 1"@))
        } else if Kelvin::checked(self.color_temperature_kelvin) is Err {
            Some(
                (
                    "curves.anchors.color_temperature_kelvin"@,
                    "must be positive with a finite mired representation"@,
                ),
            )
        } else {
            None
        }
    }

    pub open spec fn accepted(self) -> CurveAnchor {
        CurveAnchor {
            time: crate::config::clock_time(self.time@)->Some_0,
            brightness: Brightness { value: self.brightness },
            color_temperature: Kelvin { value: self.color_temperature_kelvin },
        }
    }

    fn validate(&self) -> (result: Result<CurveAnchor, ConfigError>)
        ensures
            crate::config::answers(result, self.fault()),
            result matches Ok(anchor) ==> anchor == self.accepted() && anchor.time.wf(),
    {
        let time = match crate::config::parse_time_of_day(self.time.as_str()) {
            Some(time) => time,
            None => return Err(
                ConfigError::validation("curves.anchors.time", "must be HH:MM or HH:MM:SS"),
            ),
        };
        let brightness = match Brightness::new(self.brightness) {
            Ok(brightness) => brightness,
            Err(_) => return Err(
                ConfigError::validation("curves.anchors.brightness", "must be between 0 and 1"),
            ),
        };
        match CurveAnchor::new(time, brightness, self.color_temperature_kelvin) {
            Ok(anchor) => Ok(anchor),
            Err(_) => Err(
                ConfigError::validation(
                    "curves.anchors.color_temperature_kelvin",
                    "must be positive with a finite mired representation",
                ),
            ),
        }
    }
}

pub open spec fn anchor_faults(anchors: Seq<RawAnchor>) -> spec_fn(int) -> Option<Problem> {
    |k: int| anchors[k].fault()
}

pub open spec fn accepted_anchors(anchors: Seq<RawAnchor>) -> Seq<CurveAnchor> {
    Seq::new(anchors.len(), |i: int| anchors[i].accepted())
}

/// At least two anchors, no two of them at one time.
pub open spec fn makes_curve(anchors: Seq<CurveAnchor>) -> bool {
    anchors.len() >= 2 && forall|seconds: u32|
        #[trigger] crate::curve::anchors_at(anchors, seconds) <= 1
}

pub open spec fn fixed_fault(anchors: Seq<RawAnchor>) -> Option<Problem> {
    first_of(
        first_problem(anchors.len() as int, anchor_faults(anchors)),
        if makes_curve(accepted_anchors(anchors)) {
            None
        } else {
            Some(
                (
                    "curves.anchors"@,
                    "curve needs at least two anchors with unique times and valid values"@,
                ),
            )
        },
    )
}

pub fn validate_fixed_curve(raw: &Vec<RawAnchor>) -> (result: Result<CircadianCurve, ConfigError>)
    ensures
        crate::config::answers(result, fixed_fault(raw@)),
        result matches Ok(curve) ==> curve.wf() && curve.anchors@.to_multiset()
            == accepted_anchors(raw@).to_multiset(),
{
    let mut anchors: Vec<CurveAnchor> = Vec::new();
    let ghost faults = anchor_faults(raw@);
    let ghost all = accepted_anchors(raw@);
    let mut i: usize = 0;
    while i < raw.len()
        invariant
            i <= raw@.len(),
            faults == anchor_faults(raw@),
            all == accepted_anchors(raw@),
            first_problem(i as int, faults) is None,
            anchors@ == all.take(i as int),
            forall|j: int| 0 <= j < anchors@.len() ==> (#[trigger] anchors@[j]).time.wf(),
        decreases raw@.len() - i,
    {
        assert(faults(i as int) == raw@[i as int].fault());
        match raw[i].validate() {
            Ok(anchor) => {
                anchors.push(anchor);
            },
            Err(error) => {
                proof {
                    lemma_first_problem(raw@.len() as int, i + 1, faults);
                }
                return Err(error);
            },
        }
        i = i + 1;
        assert(anchors@ =~= all.take(i as int));
    }
    assert(anchors@ =~= all);
    match CircadianCurve::new(anchors) {
        Ok(curve) => Ok(curve),
        Err(_) => {
            assert(!makes_curve(all));
            Err(
                ConfigError::validation(
                    "curves.anchors",
                    "curve needs at least two anchors with unique times and valid values",
                ),
            )
        },
    }
}

/// Why a required time is refused.
pub open spec fn time_fault(value: Option<String>, field: Seq<char>) -> Option<Problem> {
    match value {
        None => Some((field, "is required"@)),
        Some(value) => if crate::config::clock_time(value@) is None {
            Some((field, "must be HH:MM or HH:MM:SS"@))
        } else {
            None
        },
    }
}

fn required_time(value: &Option<String>, field: &'static str) -> (result: Result<
    TimeOfDay,
    ConfigError,
>)
    ensures
        crate::config::answers(result, time_fault(*value, field@)),
        result matches Ok(time) ==> crate::config::clock_time(value->Some_0@) == Some(time)
            && time.wf(),
{
    match value {
        None => Err(ConfigError::validation(field, "is required")),
        Some(text) => match crate::config::parse_time_of_day(text.as_str()) {
            Some(time) => Ok(time),
            None => Err(ConfigError::validation(field, "must be HH:MM or HH:MM:SS")),
        },
    }
}

/// Why a required brightness is refused.
pub open spec fn brightness_fault(value: Option<Double>, field: Seq<char>) -> Option<Problem> {
    match value {
        None => Some((field, "is required"@)),
        Some(value) => if crate::value::in_range(
            value,
            Double { bits: 0 },
            Double { bits: ONE },
        ) is Err {
            Some((field, "must be between 0 and 1"@))
        } else {
            None
        },
    }
}

fn required_brightness(value: Option<Double>, field: &'static str) -> (result: Result<
    Brightness,
    ConfigError,
>)
    ensures
        crate::config::answers(result, brightness_fault(value, field@)),
        result matches Ok(brightness) ==> brightness.value == value->Some_0,
{
    match value {
        None => Err(ConfigError::validation(field, "is required")),
        Some(value) => match Brightness::new(value) {
            Ok(brightness) => Ok(brightness),
            Err(_) => Err(ConfigError::validation(field, "must be between 0 and 1")),
        },
    }
}

/// Why a required colour temperature is refused.
pub open spec fn kelvin_fault(value: Option<Double>, field: Seq<char>) -> Option<Problem> {
    match value {
        None => Some((field, "is required"@)),
        Some(value) => if Kelvin::checked(value) is Err {
            Some((field, "must be positive with a finite mired representation"@))
        } else {
            None
        },
    }
}

fn required_kelvin(value: Option<Double>, field: &'static str) -> (result: Result<
    Kelvin,
    ConfigError,
>)
    ensures
        crate::config::answers(result, kelvin_fault(value, field@)),
        result matches Ok(kelvin) ==> kelvin.value == value->Some_0,
{
    match value {
        None => Err(ConfigError::validation(field, "is required")),
        Some(value) => match Kelvin::new(value) {
            Ok(kelvin) => Ok(kelvin),
            Err(_) => Err(
                ConfigError::validation(
                    field,
                    "must be positive with a finite mired representation",
                ),
            ),
        },
    }
}

impl RawWinterHold {
    pub open spec fn accepted(self) -> WinterHold {
        WinterHold {
            start: crate::config::calendar_day(self.start@)->Some_0,
            end: crate::config::calendar_day(self.end@)->Some_0,
            reference: crate::config::calendar_day(self.reference@)->Some_0,
        }
    }

    pub open spec fn fault(self) -> Option<Problem> {
        if crate::config::calendar_day(self.start@) is None || crate::config::calendar_day(
            self.end@,
        ) is None || crate::config::calendar_day(self.reference@) is None {
            Some(("curves.winter_hold"@, "must use valid MM-DD values"@))
        } else if !self.accepted().covers(self.accepted().reference) {
            Some(("curves.winter_hold.reference"@, "must fall inside hold interval"@))
        } else {
            None
        }
    }

    pub fn validate(&self) -> (result: Result<WinterHold, ConfigError>)
        ensures
            crate::config::answers(result, self.fault()),
            result matches Ok(hold) ==> hold == self.accepted(),
    {
        let start = match crate::config::parse_month_day(self.start.as_str()) {
            Ok(day) => day,
            Err(error) => return Err(error),
        };
        let end = match crate::config::parse_month_day(self.end.as_str()) {
            Ok(day) => day,
            Err(error) => return Err(error),
        };
        let reference = match crate::config::parse_month_day(self.reference.as_str()) {
            Ok(day) => day,
            Err(error) => return Err(error),
        };
        match WinterHold::new(start, end, reference) {
            Ok(hold) => Ok(hold),
            Err(_) => Err(
                ConfigError::validation(
                    "curves.winter_hold.reference",
                    "must fall inside hold interval",
                ),
            ),
        }
    }
}

impl RawCurve {
    /// Something is set that only a curve that follows the sun has.
    pub open spec fn sets_sun(self) -> bool {
        self.wake_time is Some || self.bed_time is Some || self.night_brightness is Some
            || self.day_brightness is Some || self.night_color_temperature_kelvin is Some
            || self.day_color_temperature_kelvin is Some || self.winter_hold is Some
    }

    pub open spec fn hybrid(self, location: ValidatedLocation) -> SolarHybridCurve {
        SolarHybridCurve {
            coordinates: location.coordinates,
            time_zone: location.time_zone,
            wake_time: crate::config::clock_time(self.wake_time->Some_0@)->Some_0,
            bed_time: crate::config::clock_time(self.bed_time->Some_0@)->Some_0,
            night_brightness: Brightness { value: self.night_brightness->Some_0 },
            day_brightness: Brightness { value: self.day_brightness->Some_0 },
            night_kelvin: Kelvin { value: self.night_color_temperature_kelvin->Some_0 },
            day_kelvin: Kelvin { value: self.day_color_temperature_kelvin->Some_0 },
            winter_hold: match self.winter_hold {
                Some(hold) => Some(hold.accepted()),
                None => None,
            },
        }
    }

    pub open spec fn hybrid_fault(self, location: ValidatedLocation) -> Option<Problem> {
        first_of(
            time_fault(self.wake_time, "curves.wake_time"@),
            first_of(
                time_fault(self.bed_time, "curves.bed_time"@),
                first_of(
                    brightness_fault(self.night_brightness, "curves.night_brightness"@),
                    first_of(
                        brightness_fault(self.day_brightness, "curves.day_brightness"@),
                        first_of(
                            kelvin_fault(
                                self.night_color_temperature_kelvin,
                                "curves.night_color_temperature_kelvin"@,
                            ),
                            first_of(
                                kelvin_fault(
                                    self.day_color_temperature_kelvin,
                                    "curves.day_color_temperature_kelvin"@,
                                ),
                                first_of(
                                    match self.winter_hold {
                                        Some(hold) => hold.fault(),
                                        None => None,
                                    },
                                    if self.hybrid(location).wf() {
                                        None
                                    } else {
                                        Some(
                                            (
                                                "curves"@,
                                                "solar curve needs an eight-hour wake/bed window and increasing day bounds"@,
                                            ),
                                        )
                                    },
                                ),
                            ),
                        ),
                    ),
                ),
            ),
        )
    }

    pub open spec fn fault(self, location: Option<ValidatedLocation>) -> Option<Problem> {
        match self.kind {
            RawCurveKind::Fixed => if self.sets_sun() {
                Some(("curves"@, "fixed curve accepts only anchors"@))
            } else {
                match self.anchors {
                    Some(anchors) => fixed_fault(anchors@),
                    None => Some(("curves.anchors"@, "fixed curve requires anchors"@)),
                }
            },
            RawCurveKind::SolarHybrid => if self.anchors is Some {
                Some(("curves"@, "solar_hybrid curve must not define anchors"@))
            } else {
                match location {
                    Some(location) => self.hybrid_fault(location),
                    None => Some(
                        ("location"@, "solar_hybrid curve requires coordinates and timezone"@),
                    ),
                }
            },
        }
    }

    /// `schedule` is what the curve describes.
    pub open spec fn describes(
        self,
        location: Option<ValidatedLocation>,
        schedule: CircadianSchedule,
    ) -> bool {
        match schedule {
            CircadianSchedule::Fixed(curve) => self.kind is Fixed && curve.anchors@.to_multiset()
                == accepted_anchors(self.anchors->Some_0@).to_multiset(),
            CircadianSchedule::SolarHybrid(curve) => self.kind is SolarHybrid && curve
                == self.hybrid(location->Some_0),
        }
    }

    fn validate_hybrid(&self, location: &ValidatedLocation) -> (result: Result<
        SolarHybridCurve,
        ConfigError,
    >)
        ensures
            crate::config::answers(result, self.hybrid_fault(*location)),
            result matches Ok(curve) ==> curve == self.hybrid(*location) && curve.wf(),
    {
        let wake_time = match required_time(&self.wake_time, "curves.wake_time") {
            Ok(time) => time,
            Err(error) => return Err(error),
        };
        let bed_time = match required_time(&self.bed_time, "curves.bed_time") {
            Ok(time) => time,
            Err(error) => return Err(error),
        };
        let night_brightness = match required_brightness(
            self.night_brightness,
            "curves.night_brightness",
        ) {
            Ok(brightness) => brightness,
            Err(error) => return Err(error),
        };
        let day_brightness = match required_brightness(
            self.day_brightness,
            "curves.day_brightness",
        ) {
            Ok(brightness) => brightness,
            Err(error) => return Err(error),
        };
        let night_kelvin = match required_kelvin(
            self.night_color_temperature_kelvin,
            "curves.night_color_temperature_kelvin",
        ) {
            Ok(kelvin) => kelvin,
            Err(error) => return Err(error),
        };
        let day_kelvin = match required_kelvin(
            self.day_color_temperature_kelvin,
            "curves.day_color_temperature_kelvin",
        ) {
            Ok(kelvin) => kelvin,
            Err(error) => return Err(error),
        };
        let winter_hold = match &self.winter_hold {
            Some(raw) => match raw.validate() {
                Ok(hold) => Some(hold),
                Err(error) => return Err(error),
            },
            None => None,
        };
        match SolarHybridCurve::new(
            location.coordinates,
            location.time_zone.clone(),
            wake_time,
            bed_time,
            night_brightness,
            day_brightness,
            night_kelvin,
            day_kelvin,
            winter_hold,
        ) {
            Ok(curve) => Ok(curve),
            Err(_) => Err(
                ConfigError::validation(
                    "curves",
                    "solar curve needs an eight-hour wake/bed window and increasing day bounds",
                ),
            ),
        }
    }

    pub fn validate(&self, location: &Option<ValidatedLocation>) -> (result: Result<
        CircadianSchedule,
        ConfigError,
    >)
        ensures
            crate::config::answers(result, self.fault(*location)),
            result matches Ok(schedule) ==> self.describes(*location, schedule) && schedule.wf(),
    {
        match self.kind {
            RawCurveKind::Fixed => {
                if self.wake_time.is_some() || self.bed_time.is_some()
                    || self.night_brightness.is_some() || self.day_brightness.is_some()
                    || self.night_color_temperature_kelvin.is_some()
                    || self.day_color_temperature_kelvin.is_some() || self.winter_hold.is_some() {
                    return Err(
                        ConfigError::validation("curves", "fixed curve accepts only anchors"),
                    );
                }
                match &self.anchors {
                    Some(anchors) => match validate_fixed_curve(anchors) {
                        Ok(curve) => Ok(CircadianSchedule::Fixed(curve)),
                        Err(error) => Err(error),
                    },
                    None => Err(
                        ConfigError::validation("curves.anchors", "fixed curve requires anchors"),
                    ),
                }
            },
            RawCurveKind::SolarHybrid => {
                if self.anchors.is_some() {
                    return Err(
                        ConfigError::validation(
                            "curves",
                            "solar_hybrid curve must not define anchors",
                        ),
                    );
                }
                match location {
                    Some(location) => match self.validate_hybrid(location) {
                        Ok(curve) => Ok(CircadianSchedule::SolarHybrid(curve)),
                        Err(error) => Err(error),
                    },
                    None => Err(
                        ConfigError::validation(
                            "location",
                            "solar_hybrid curve requires coordinates and timezone",
                        ),
                    ),
                }
            },
        }
    }
}

pub open spec fn has_curve(curves: Seq<RawCurve>, n: int, name: Seq<char>) -> bool {
    exists|i: int| 0 <= i < n && (#[trigger] curves[i]).id@ == name
}

pub open spec fn curve_fault(
    curves: Seq<RawCurve>,
    location: Option<ValidatedLocation>,
    k: int,
) -> Option<Problem> {
    first_of(
        identifier_fault(curves[k].id@, "curves.id"@),
        first_of(
            curves[k].fault(location),
            if has_curve(curves, k, curves[k].id@) {
                Some(("curves"@, "duplicate identifier"@))
            } else {
                None
            },
        ),
    )
}

pub open spec fn curve_faults(
    curves: Seq<RawCurve>,
    location: Option<ValidatedLocation>,
) -> spec_fn(int) -> Option<Problem> {
    |k: int| curve_fault(curves, location, k)
}

pub open spec fn curves_fault(
    curves: Seq<RawCurve>,
    location: Option<ValidatedLocation>,
) -> Option<Problem> {
    if curves.len() == 0 {
        Some(("curves"@, "must not be empty"@))
    } else {
        first_problem(curves.len() as int, curve_faults(curves, location))
    }
}

fn find_curve(curves: &Vec<RawCurve>, n: usize, name: &str) -> (found: bool)
    requires
        n <= curves@.len(),
    ensures
        found == has_curve(curves@, n as int, name@),
{
    let mut i: usize = 0;
    while i < n
        invariant
            i <= n <= curves@.len(),
            forall|j: int| 0 <= j < i ==> (#[trigger] curves@[j]).id@ != name@,
        decreases n - i,
    {
        if text::text_equals(curves[i].id.as_str(), name) {
            assert(curves@[i as int].id@ == name@);
            return true;
        }
        i = i + 1;
    }
    false
}

/// Each configured curve is what its description says.
pub open spec fn curves_follow(
    curves: Seq<RawCurve>,
    location: Option<ValidatedLocation>,
    configurations: Seq<CurveConfiguration>,
    n: int,
) -> bool {
    configurations.len() == n && forall|i: int|
        0 <= i < n ==> (#[trigger] configurations[i]).id.text == curves[i].id
            && curves[i].describes(location, configurations[i].schedule)
            && configurations[i].schedule.wf()
}

pub fn validate_curves(curves: &Vec<RawCurve>, location: &Option<ValidatedLocation>) -> (result:
    Result<Vec<CurveConfiguration>, ConfigError>)
    ensures
        crate::config::answers(result, curves_fault(curves@, *location)),
        result matches Ok(configurations) ==> curves_follow(
            curves@,
            *location,
            configurations@,
            curves@.len() as int,
        ),
{
    if curves.len() == 0 {
        return Err(ConfigError::validation("curves", "must not be empty"));
    }
    let ghost faults = curve_faults(curves@, *location);
    let mut configurations: Vec<CurveConfiguration> = Vec::new();
    let mut i: usize = 0;
    while i < curves.len()
        invariant
            i <= curves@.len(),
            curves@.len() > 0,
            faults == curve_faults(curves@, *location),
            first_problem(i as int, faults) is None,
            curves_follow(curves@, *location, configurations@, i as int),
        decreases curves@.len() - i,
    {
        assert(faults(i as int) == curve_fault(curves@, *location, i as int));
        let id = match scope_id(&curves[i].id, "curves.id") {
            Ok(id) => id,
            Err(error) => {
                proof {
                    lemma_first_problem(curves@.len() as int, i + 1, faults);
                }
                return Err(error);
            },
        };
        let schedule = match curves[i].validate(location) {
            Ok(schedule) => schedule,
            Err(error) => {
                proof {
                    lemma_first_problem(curves@.len() as int, i + 1, faults);
                }
                return Err(error);
            },
        };
        if find_curve(curves, i, curves[i].id.as_str()) {
            proof {
                lemma_first_problem(curves@.len() as int, i + 1, faults);
            }
            return Err(ConfigError::validation("curves", "duplicate identifier"));
        }
        let ghost before = configurations@;
        configurations.push(CurveConfiguration { id, schedule });
        i = i + 1;
        assert(forall|j: int| 0 <= j < i - 1 ==> configurations@[j] == before[j]);
    }
    Ok(configurations)
}

// Devices.

#[derive(Debug, PartialEq)]
pub struct RawDevice {
    pub id: String,
    pub aliases: Vec<String>,
    pub friendly_name: String,
    pub room: String,
    pub capabilities: RawCapabilities,
    pub color_comparison: Option<RawColorComparison>,
    pub single_transition_attribute: bool,
}

/// A device of the house.
#[derive(Debug)]
pub struct DeviceConfiguration {
    pub id: DeviceId,
    pub definition: DeviceDefinition,
    pub binding: DeviceBinding,
    pub membership: ScopeMembership,
    pub aliases: Vec<DeviceId>,
    pub is_controllable_light: bool,
}

/// `name` is the identifier or an alias of one of the first `n` devices.
pub open spec fn device_named(devices: Seq<RawDevice>, n: int, name: Seq<char>) -> bool {
    exists|j: int|
        0 <= j < n && ((#[trigger] devices[j]).id@ == name || text::among(
            devices[j].aliases@,
            name,
        ))
}

/// One of the first `n` texts is `name`.
pub open spec fn among_first(texts: Seq<String>, n: int, name: Seq<char>) -> bool {
    exists|i: int| 0 <= i < n && (#[trigger] texts[i])@ == name
}

fn is_among_first(texts: &Vec<String>, n: usize, name: &str) -> (result: bool)
    requires
        n <= texts@.len(),
    ensures
        result == among_first(texts@, n as int, name@),
{
    let mut i: usize = 0;
    while i < n
        invariant
            i <= n <= texts@.len(),
            forall|j: int| 0 <= j < i ==> (#[trigger] texts@[j])@ != name@,
        decreases n - i,
    {
        if text::text_equals(texts[i].as_str(), name) {
            assert(texts@[i as int]@ == name@);
            return true;
        }
        i = i + 1;
    }
    false
}

fn is_device_named(devices: &Vec<RawDevice>, n: usize, name: &str) -> (result: bool)
    requires
        n <= devices@.len(),
    ensures
        result == device_named(devices@, n as int, name@),
{
    let mut i: usize = 0;
    while i < n
        invariant
            i <= n <= devices@.len(),
            forall|j: int|
                0 <= j < i ==> !((#[trigger] devices@[j]).id@ == name@ || text::among(
                    devices@[j].aliases@,
                    name@,
                )),
        decreases n - i,
    {
        if text::text_equals(devices[i].id.as_str(), name) || text::is_among(
            &devices[i].aliases,
            name,
        ) {
            assert(devices@[i as int].id@ == name@ || text::among(
                devices@[i as int].aliases@,
                name@,
            ));
            return true;
        }
        i = i + 1;
    }
    false
}

pub open spec fn device_alias_fault(devices: Seq<RawDevice>, k: int, a: int) -> Option<Problem> {
    let alias = devices[k].aliases@[a]@;
    first_of(
        identifier_fault(alias, "devices.aliases"@),
        if device_named(devices, k, alias) || alias == devices[k].id@ || among_first(
            devices[k].aliases@,
            a,
            alias,
        ) {
            Some(("devices.aliases"@, "duplicate identifier or alias"@))
        } else {
            None
        },
    )
}

pub open spec fn device_alias_faults(devices: Seq<RawDevice>, k: int) -> spec_fn(int) -> Option<
    Problem,
> {
    |a: int| device_alias_fault(devices, k, a)
}

/// Identifiers in the words of texts.
pub open spec fn identifies(ids: Seq<DeviceId>, texts: Seq<String>, n: int) -> bool {
    ids.len() == n && forall|i: int| 0 <= i < n ==> (#[trigger] ids[i]).text == texts[i]
}

fn validate_device_aliases(devices: &Vec<RawDevice>, k: usize) -> (result: Result<
    Vec<DeviceId>,
    ConfigError,
>)
    requires
        k < devices@.len(),
    ensures
        crate::config::answers(
            result,
            first_problem(
                devices@[k as int].aliases@.len() as int,
                device_alias_faults(devices@, k as int),
            ),
        ),
        result matches Ok(aliases) ==> identifies(
            aliases@,
            devices@[k as int].aliases@,
            devices@[k as int].aliases@.len() as int,
        ),
{
    let ghost faults = device_alias_faults(devices@, k as int);
    let ghost count = devices@[k as int].aliases@.len() as int;
    let mut aliases: Vec<DeviceId> = Vec::new();
    let mut a: usize = 0;
    while a < devices[k].aliases.len()
        invariant
            k < devices@.len(),
            a <= count,
            count == devices@[k as int].aliases@.len(),
            faults == device_alias_faults(devices@, k as int),
            first_problem(a as int, faults) is None,
            identifies(aliases@, devices@[k as int].aliases@, a as int),
        decreases count - a,
    {
        assert(faults(a as int) == device_alias_fault(devices@, k as int, a as int));
        let alias = match device_id(&devices[k].aliases[a], "devices.aliases") {
            Ok(alias) => alias,
            Err(error) => {
                proof {
                    lemma_first_problem(count, a + 1, faults);
                }
                return Err(error);
            },
        };
        if is_device_named(devices, k, alias.as_str()) || text::text_equals(
            alias.as_str(),
            devices[k].id.as_str(),
        ) || is_among_first(&devices[k].aliases, a, alias.as_str()) {
            proof {
                lemma_first_problem(count, a + 1, faults);
            }
            return Err(
                ConfigError::validation("devices.aliases", "duplicate identifier or alias"),
            );
        }
        let ghost before = aliases@;
        aliases.push(alias);
        a = a + 1;
        assert(forall|j: int| 0 <= j < a - 1 ==> aliases@[j] == before[j]);
    }
    Ok(aliases)
}

/// Transitions of one attribute at a time need two attributes.
pub open spec fn transition_fault(
    single: bool,
    capabilities: Capabilities,
    field: Seq<char>,
) -> Option<Problem> {
    if single && (!capabilities.dimming || capabilities.color_temperature is None) {
        Some(
            (
                field,
                "single-attribute transition behavior requires dimming and color-temperature capabilities"@,
            ),
        )
    } else {
        None
    }
}

fn validate_transition(single: bool, capabilities: Capabilities, field: &'static str) -> (result:
    Result<(), ConfigError>)
    ensures
        crate::config::answers(result, transition_fault(single, capabilities, field@)),
{
    if single && (!capabilities.dimming || capabilities.color_temperature.is_none()) {
        return Err(
            ConfigError::validation(
                field,
                "single-attribute transition behavior requires dimming and color-temperature capabilities",
            ),
        );
    }
    Ok(())
}

impl RawDevice {
    /// How colours of this device are compared.
    pub open spec fn comparison(self) -> RawColorComparison {
        match self.color_comparison {
            Some(comparison) => comparison,
            None => RawColorComparison::standard(),
        }
    }

    /// What is wrong with the device itself, apart from its names and its room.
    pub open spec fn equipment_fault(self) -> Option<Problem> {
        let capabilities = self.capabilities.accepted();
        first_of(
            self.capabilities.fault("devices.capabilities"@, true),
            first_of(
                transition_fault(
                    self.single_transition_attribute,
                    capabilities,
                    "devices.single_transition_attribute"@,
                ),
                first_of(
                    if self.color_comparison is Some && !capabilities.color_xy
                        && !capabilities.color_hs {
                        Some(("devices.color_comparison"@, "requires a color capability"@))
                    } else {
                        None
                    },
                    first_of(
                        self.comparison().fault(),
                        if !crate::zigbee2mqtt::friendly(self.friendly_name@) {
                            Some(
                                (
                                    "devices.friendly_name"@,
                                    "duplicate, reserved, wildcard, or malformed Zigbee2MQTT name"@,
                                ),
                            )
                        } else {
                            None
                        },
                    ),
                ),
            ),
        )
    }

    pub open spec fn defined(self) -> DeviceDefinition {
        DeviceDefinition {
            id: DeviceId { text: self.id },
            capabilities: self.capabilities.accepted(),
            color_policy: self.comparison().accepted(),
        }
    }

    pub open spec fn bound(self) -> DeviceBinding {
        DeviceBinding {
            id: DeviceId { text: self.id },
            friendly_name: self.friendly_name,
            capabilities: self.capabilities.accepted(),
            mired_range: self.capabilities.mired(),
            single_transition_attribute: self.single_transition_attribute,
        }
    }

    /// The room and the floor of the device.
    pub open spec fn place(self, rooms: Seq<RawRoom>) -> ScopeMembership {
        ScopeMembership {
            room: ScopeId { text: self.room },
            floor: ScopeId {
                text: rooms[room_place(rooms, rooms.len() as int, self.room@)].floor,
            },
        }
    }

    /// `configuration` is what the device says.
    pub open spec fn configures(
        self,
        rooms: Seq<RawRoom>,
        configuration: DeviceConfiguration,
    ) -> bool {
        &&& configuration.id.text == self.id
        &&& configuration.definition == self.defined()
        &&& configuration.binding == self.bound()
        &&& configuration.membership == self.place(rooms)
        &&& identifies(configuration.aliases@, self.aliases@, self.aliases@.len() as int)
        &&& configuration.is_controllable_light == self.capabilities.on_off
    }

    fn validate_equipment(&self, id: DeviceId) -> (result: Result<
        (DeviceDefinition, DeviceBinding),
        ConfigError,
    >)
        requires
            id.text == self.id,
        ensures
            crate::config::answers(result, self.equipment_fault()),
            result matches Ok(found) ==> found.0 == self.defined() && found.1 == self.bound(),
    {
        let (capabilities, mired_range) = match self.capabilities.validate(
            "devices.capabilities",
            true,
        ) {
            Ok(found) => found,
            Err(error) => return Err(error),
        };
        match validate_transition(
            self.single_transition_attribute,
            capabilities,
            "devices.single_transition_attribute",
        ) {
            Ok(()) => {},
            Err(error) => return Err(error),
        }
        if self.color_comparison.is_some() && !capabilities.color_xy && !capabilities.color_hs {
            return Err(
                ConfigError::validation("devices.color_comparison", "requires a color capability"),
            );
        }
        let comparison = match self.color_comparison {
            Some(comparison) => comparison,
            None => RawColorComparison::default(),
        };
        let color_policy = match comparison.validate() {
            Ok(policy) => policy,
            Err(error) => return Err(error),
        };
        let definition = DeviceDefinition::with_color_policy(
            id.clone(),
            capabilities,
            color_policy,
        );
        match DeviceBinding::new(
            id,
            self.friendly_name.clone(),
            capabilities,
            mired_range,
            self.single_transition_attribute,
        ) {
            Ok(binding) => Ok((definition, binding)),
            Err(_) => Err(
                ConfigError::validation(
                    "devices.friendly_name",
                    "duplicate, reserved, wildcard, or malformed Zigbee2MQTT name",
                ),
            ),
        }
    }
}

pub open spec fn device_fault(devices: Seq<RawDevice>, rooms: Seq<RawRoom>, k: int) -> Option<
    Problem,
> {
    let device = devices[k];
    first_of(
        identifier_fault(device.id@, "devices.id"@),
        first_of(
            if device_named(devices, k, device.id@) {
                Some(("devices.id"@, "duplicate identifier or alias"@))
            } else {
                None
            },
            first_of(
                first_problem(device.aliases@.len() as int, device_alias_faults(devices, k)),
                first_of(
                    identifier_fault(device.room@, "devices.room"@),
                    first_of(
                        if has_room(rooms, rooms.len() as int, device.room@) {
                            None
                        } else {
                            Some(("devices.room"@, "references unknown room"@))
                        },
                        device.equipment_fault(),
                    ),
                ),
            ),
        ),
    )
}

pub open spec fn device_faults(devices: Seq<RawDevice>, rooms: Seq<RawRoom>) -> spec_fn(
    int,
) -> Option<Problem> {
    |k: int| device_fault(devices, rooms, k)
}

pub open spec fn devices_fault(devices: Seq<RawDevice>, rooms: Seq<RawRoom>) -> Option<Problem> {
    if devices.len() == 0 {
        Some(("devices"@, "must not be empty"@))
    } else {
        first_problem(devices.len() as int, device_faults(devices, rooms))
    }
}

fn validate_device(devices: &Vec<RawDevice>, rooms: &Vec<RawRoom>, k: usize) -> (result: Result<
    DeviceConfiguration,
    ConfigError,
>)
    requires
        k < devices@.len(),
    ensures
        crate::config::answers(result, device_fault(devices@, rooms@, k as int)),
        result matches Ok(configuration) ==> devices@[k as int].configures(rooms@, configuration),
{
    let device = &devices[k];
    let id = match device_id(&device.id, "devices.id") {
        Ok(id) => id,
        Err(error) => return Err(error),
    };
    if is_device_named(devices, k, id.as_str()) {
        return Err(ConfigError::validation("devices.id", "duplicate identifier or alias"));
    }
    let aliases = match validate_device_aliases(devices, k) {
        Ok(aliases) => aliases,
        Err(error) => return Err(error),
    };
    let room = match scope_id(&device.room, "devices.room") {
        Ok(room) => room,
        Err(error) => return Err(error),
    };
    let place: usize = find_room(rooms, rooms.len(), device.room.as_str());
    if place >= rooms.len() {
        return Err(ConfigError::validation("devices.room", "references unknown room"));
    }
    let floor = ScopeId { text: rooms[place].floor.clone() };
    match device.validate_equipment(id.clone()) {
        Ok((definition, binding)) => Ok(
            DeviceConfiguration {
                id,
                definition,
                binding,
                membership: ScopeMembership::new(room, floor),
                aliases,
                is_controllable_light: device.capabilities.on_off,
            },
        ),
        Err(error) => Err(error),
    }
}

/// Each of the first `n` configured devices is what its description says.
pub open spec fn devices_follow(
    devices: Seq<RawDevice>,
    rooms: Seq<RawRoom>,
    configurations: Seq<DeviceConfiguration>,
    n: int,
) -> bool {
    configurations.len() == n && forall|i: int|
        0 <= i < n ==> devices[i].configures(rooms, #[trigger] configurations[i])
}

pub fn validate_devices(devices: &Vec<RawDevice>, rooms: &Vec<RawRoom>) -> (result: Result<
    Vec<DeviceConfiguration>,
    ConfigError,
>)
    ensures
        crate::config::answers(result, devices_fault(devices@, rooms@)),
        result matches Ok(configurations) ==> devices_follow(
            devices@,
            rooms@,
            configurations@,
            devices@.len() as int,
        ),
{
    if devices.len() == 0 {
        return Err(ConfigError::validation("devices", "must not be empty"));
    }
    let ghost faults = device_faults(devices@, rooms@);
    let mut configurations: Vec<DeviceConfiguration> = Vec::new();
    let mut i: usize = 0;
    while i < devices.len()
        invariant
            i <= devices@.len(),
            devices@.len() > 0,
            faults == device_faults(devices@, rooms@),
            first_problem(i as int, faults) is None,
            devices_follow(devices@, rooms@, configurations@, i as int),
        decreases devices@.len() - i,
    {
        assert(faults(i as int) == device_fault(devices@, rooms@, i as int));
        match validate_device(devices, rooms, i) {
            Ok(configuration) => {
                let ghost before = configurations@;
                configurations.push(configuration);
                assert(forall|j: int| 0 <= j < i ==> configurations@[j] == before[j]);
            },
            Err(error) => {
                proof {
                    lemma_first_problem(devices@.len() as int, i + 1, faults);
                }
                return Err(error);
            },
        }
        i = i + 1;
    }
    Ok(configurations)
}

pub(crate) proof fn lemma_no_problem(n: int, k: int, at: spec_fn(int) -> Option<Problem>)
    requires
        0 <= k < n,
        first_problem(n, at) is None,
    ensures
        at(k) is None,
    decreases n,
{
    if k < n - 1 {
        lemma_no_problem(n - 1, k, at);
    }
}

/// Devices without a problem have valid capabilities.
pub(crate) proof fn lemma_devices_are_equipped(devices: Seq<RawDevice>, rooms: Seq<RawRoom>)
    requires
        devices_fault(devices, rooms) is None,
    ensures
        forall|i: int|
            0 <= i < devices.len() ==> (#[trigger] devices[i]).capabilities.fault(
                "devices.capabilities"@,
                true,
            ) is None,
{
    assert forall|i: int| 0 <= i < devices.len() implies (
    #[trigger] devices[i]).capabilities.fault("devices.capabilities"@, true) is None by {
        let faults = device_faults(devices, rooms);
        lemma_no_problem(devices.len() as int, i, faults);
        assert(faults(i) == device_fault(devices, rooms, i));
    }
}

// Groups.

#[derive(Debug, PartialEq)]
pub struct RawGroup {
    pub id: String,
    pub friendly_name: String,
    pub members: Vec<String>,
    pub capabilities: RawCapabilities,
    pub single_transition_attribute: bool,
}

pub type GroupId = EntityId;

/// A native group of the house.
#[derive(Debug)]
pub struct GroupConfiguration {
    pub id: GroupId,
    pub members: Vec<DeviceId>,
    pub mired_range: Option<MiredRange>,
    pub definition: GroupDefinition,
    pub binding: GroupBinding,
}

pub open spec fn has_device(devices: Seq<RawDevice>, n: int, name: Seq<char>) -> bool {
    exists|i: int| 0 <= i < n && (#[trigger] devices[i]).id@ == name
}

/// First place of a device among the first `n`; `n` where it is not there.
pub open spec fn device_place(devices: Seq<RawDevice>, n: int, name: Seq<char>) -> int
    decreases n,
{
    if n <= 0 {
        0
    } else {
        let before = device_place(devices, n - 1, name);
        if before < n - 1 || devices[n - 1].id@ == name {
            before
        } else {
            n
        }
    }
}

proof fn lemma_device_place(devices: Seq<RawDevice>, n: int, name: Seq<char>)
    requires
        0 <= n <= devices.len(),
    ensures
        0 <= device_place(devices, n, name) <= n,
        device_place(devices, n, name) < n ==> devices[device_place(devices, n, name)].id@ == name,
        (device_place(devices, n, name) < n) == has_device(devices, n, name),
    decreases n,
{
    if n > 0 {
        lemma_device_place(devices, n - 1, name);
        if has_device(devices, n - 1, name) {
            let i = choose|i: int| 0 <= i < n - 1 && (#[trigger] devices[i]).id@ == name;
            assert(devices[i].id@ == name);
        }
        if has_device(devices, n, name) && devices[n - 1].id@ != name {
            let i = choose|i: int| 0 <= i < n && (#[trigger] devices[i]).id@ == name;
            assert(i < n - 1);
        }
        if devices[n - 1].id@ == name {
            assert(has_device(devices, n, name));
        }
    }
}

fn find_device(devices: &Vec<RawDevice>, name: &str) -> (place: usize)
    ensures
        place == device_place(devices@, devices@.len() as int, name@),
        place <= devices@.len(),
        (place < devices@.len()) == has_device(devices@, devices@.len() as int, name@),
{
    let mut place: usize = 0;
    let mut i: usize = 0;
    while i < devices.len()
        invariant
            i <= devices@.len(),
            place == device_place(devices@, i as int, name@),
            place <= i,
        decreases devices@.len() - i,
    {
        if place == i && !text::text_equals(devices[i].id.as_str(), name) {
            place = i + 1;
        }
        i = i + 1;
    }
    proof {
        lemma_device_place(devices@, devices@.len() as int, name@);
    }
    place
}

pub open spec fn has_group(groups: Seq<RawGroup>, n: int, name: Seq<char>) -> bool {
    exists|i: int| 0 <= i < n && (#[trigger] groups[i]).id@ == name
}

/// One of the first `n` groups has this member.
pub open spec fn assigned(groups: Seq<RawGroup>, n: int, name: Seq<char>) -> bool {
    exists|i: int| 0 <= i < n && text::among((#[trigger] groups[i]).members@, name)
}

fn find_group(groups: &Vec<RawGroup>, n: usize, name: &str) -> (found: bool)
    requires
        n <= groups@.len(),
    ensures
        found == has_group(groups@, n as int, name@),
{
    let mut i: usize = 0;
    while i < n
        invariant
            i <= n <= groups@.len(),
            forall|j: int| 0 <= j < i ==> (#[trigger] groups@[j]).id@ != name@,
        decreases n - i,
    {
        if text::text_equals(groups[i].id.as_str(), name) {
            assert(groups@[i as int].id@ == name@);
            return true;
        }
        i = i + 1;
    }
    false
}

fn is_assigned(groups: &Vec<RawGroup>, n: usize, name: &str) -> (found: bool)
    requires
        n <= groups@.len(),
    ensures
        found == assigned(groups@, n as int, name@),
{
    let mut i: usize = 0;
    while i < n
        invariant
            i <= n <= groups@.len(),
            forall|j: int| 0 <= j < i ==> !text::among((#[trigger] groups@[j]).members@, name@),
        decreases n - i,
    {
        if text::is_among(&groups[i].members, name) {
            assert(text::among(groups@[i as int].members@, name@));
            return true;
        }
        i = i + 1;
    }
    false
}

pub open spec fn member_fault(
    groups: Seq<RawGroup>,
    devices: Seq<RawDevice>,
    k: int,
    m: int,
) -> Option<Problem> {
    let name = groups[k].members@[m]@;
    let device = devices[device_place(devices, devices.len() as int, name)];
    first_of(
        identifier_fault(name, "groups.members"@),
        if !has_device(devices, devices.len() as int, name) {
            Some(("groups.members"@, "references unknown device"@))
        } else if among_first(groups[k].members@, m, name) || assigned(groups, k, name) {
            Some(
                (
                    "groups.members"@,
                    "device must occur once and belong to at most one Zigbee group"@,
                ),
            )
        } else if !supported(groups[k].capabilities.accepted(), device.capabilities.accepted())
            || !mired_supported(groups[k].capabilities.mired(), device.capabilities.mired()) {
            Some(
                (
                    "groups.capabilities"@,
                    "group capabilities must be supported by every member"@,
                ),
            )
        } else {
            None
        },
    )
}

pub open spec fn member_faults(
    groups: Seq<RawGroup>,
    devices: Seq<RawDevice>,
    k: int,
) -> spec_fn(int) -> Option<Problem> {
    |m: int| member_fault(groups, devices, k, m)
}

impl RawGroup {
    /// What commands to the whole group can say: colour temperature only where the
    /// group has a mired range.
    pub open spec fn commandable(self) -> Capabilities {
        Capabilities {
            color_temperature: if self.capabilities.mired() is Some {
                self.capabilities.accepted().color_temperature
            } else {
                None
            },
            ..self.capabilities.accepted()
        }
    }

    pub open spec fn bound(self) -> GroupBinding {
        GroupBinding {
            id: EntityId { text: self.id },
            friendly_name: self.friendly_name,
            mired_range: self.capabilities.mired(),
            single_transition_attribute: self.single_transition_attribute,
        }
    }

    /// `configuration` is what the group says.
    pub open spec fn configures(self, configuration: GroupConfiguration) -> bool {
        &&& configuration.id.text == self.id
        &&& identifies(configuration.members@, self.members@, self.members@.len() as int)
        &&& configuration.mired_range == self.capabilities.mired()
        &&& configuration.definition.wf()
        &&& configuration.definition.id == configuration.id
        &&& configuration.definition.capabilities == self.commandable()
        &&& configuration.definition.members@.to_multiset() == configuration.members@.to_multiset()
        &&& configuration.binding == self.bound()
    }
}

pub open spec fn group_fault(groups: Seq<RawGroup>, devices: Seq<RawDevice>, k: int) -> Option<
    Problem,
> {
    let group = groups[k];
    first_of(
        identifier_fault(group.id@, "groups.id"@),
        first_of(
            if has_group(groups, k, group.id@) {
                Some(("groups.id"@, "duplicate identifier"@))
            } else {
                None
            },
            first_of(
                group.capabilities.fault("groups.capabilities"@, false),
                first_of(
                    transition_fault(
                        group.single_transition_attribute,
                        group.capabilities.accepted(),
                        "groups.single_transition_attribute"@,
                    ),
                    first_of(
                        if group.members@.len() == 0 {
                            Some(("groups.members"@, "must not be empty"@))
                        } else {
                            None
                        },
                        first_of(
                            first_problem(
                                group.members@.len() as int,
                                member_faults(groups, devices, k),
                            ),
                            if !crate::zigbee2mqtt::friendly(group.friendly_name@) {
                                Some(
                                    (
                                        "groups.friendly_name"@,
                                        "reserved, wildcard, or malformed Zigbee2MQTT name"@,
                                    ),
                                )
                            } else {
                                None
                            },
                        ),
                    ),
                ),
            ),
        ),
    )
}

pub open spec fn group_faults(groups: Seq<RawGroup>, devices: Seq<RawDevice>) -> spec_fn(
    int,
) -> Option<Problem> {
    |k: int| group_fault(groups, devices, k)
}

pub open spec fn groups_fault(groups: Seq<RawGroup>, devices: Seq<RawDevice>) -> Option<Problem> {
    first_problem(groups.len() as int, group_faults(groups, devices))
}

fn validate_member(
    groups: &Vec<RawGroup>,
    devices: &Vec<RawDevice>,
    k: usize,
    m: usize,
    capabilities: Capabilities,
    mired_range: Option<MiredRange>,
) -> (result: Result<DeviceId, ConfigError>)
    requires
        k < groups@.len(),
        m < groups@[k as int].members@.len(),
        capabilities == groups@[k as int].capabilities.accepted(),
        mired_range == groups@[k as int].capabilities.mired(),
        forall|i: int|
            0 <= i < devices@.len() ==> (#[trigger] devices@[i]).capabilities.fault(
                "devices.capabilities"@,
                true,
            ) is None,
    ensures
        crate::config::answers(result, member_fault(groups@, devices@, k as int, m as int)),
        result matches Ok(member) ==> member.text == groups@[k as int].members@[m as int],
{
    let group = &groups[k];
    let member = match device_id(&group.members[m], "groups.members") {
        Ok(member) => member,
        Err(error) => return Err(error),
    };
    let place: usize = find_device(devices, member.as_str());
    if place >= devices.len() {
        return Err(ConfigError::validation("groups.members", "references unknown device"));
    }
    if is_among_first(&group.members, m, member.as_str()) || is_assigned(
        groups,
        k,
        member.as_str(),
    ) {
        return Err(
            ConfigError::validation(
                "groups.members",
                "device must occur once and belong to at most one Zigbee group",
            ),
        );
    }
    let (member_capabilities, member_mired) = match devices[place].capabilities.validate(
        "devices.capabilities",
        true,
    ) {
        Ok(found) => found,
        Err(error) => return Err(error),
    };
    if !capabilities_subset(capabilities, member_capabilities) || !mired_subset(
        mired_range,
        member_mired,
    ) {
        return Err(
            ConfigError::validation(
                "groups.capabilities",
                "group capabilities must be supported by every member",
            ),
        );
    }
    Ok(member)
}

fn validate_members(
    groups: &Vec<RawGroup>,
    devices: &Vec<RawDevice>,
    k: usize,
    capabilities: Capabilities,
    mired_range: Option<MiredRange>,
) -> (result: Result<Vec<DeviceId>, ConfigError>)
    requires
        k < groups@.len(),
        capabilities == groups@[k as int].capabilities.accepted(),
        mired_range == groups@[k as int].capabilities.mired(),
        forall|i: int|
            0 <= i < devices@.len() ==> (#[trigger] devices@[i]).capabilities.fault(
                "devices.capabilities"@,
                true,
            ) is None,
    ensures
        crate::config::answers(
            result,
            first_problem(
                groups@[k as int].members@.len() as int,
                member_faults(groups@, devices@, k as int),
            ),
        ),
        result matches Ok(members) ==> identifies(
            members@,
            groups@[k as int].members@,
            groups@[k as int].members@.len() as int,
        ) && crate::reconcile::ids_differ(members@, members@.len() as int),
{
    let ghost faults = member_faults(groups@, devices@, k as int);
    let ghost texts = groups@[k as int].members@;
    let mut members: Vec<DeviceId> = Vec::new();
    let mut m: usize = 0;
    while m < groups[k].members.len()
        invariant
            k < groups@.len(),
            texts == groups@[k as int].members@,
            m <= texts.len(),
            capabilities == groups@[k as int].capabilities.accepted(),
            mired_range == groups@[k as int].capabilities.mired(),
            forall|i: int|
                0 <= i < devices@.len() ==> (#[trigger] devices@[i]).capabilities.fault(
                    "devices.capabilities"@,
                    true,
                ) is None,
            faults == member_faults(groups@, devices@, k as int),
            first_problem(m as int, faults) is None,
            identifies(members@, texts, m as int),
            crate::reconcile::ids_differ(members@, m as int),
        decreases texts.len() - m,
    {
        assert(faults(m as int) == member_fault(groups@, devices@, k as int, m as int));
        match validate_member(groups, devices, k, m, capabilities, mired_range) {
            Ok(member) => {
                let ghost before = members@;
                members.push(member);
                proof {
                    assert(forall|j: int| 0 <= j < m ==> members@[j] == before[j]);
                    assert forall|i: int, j: int|
                        0 <= i < j < m + 1 implies (#[trigger] members@[i]).text@ != (
                    #[trigger] members@[j]).text@ by {
                        if j == m {
                            assert(texts[i]@ == members@[i].text@);
                            assert(!among_first(texts, m as int, texts[m as int]@));
                        } else {
                            assert(before[i].text@ != before[j].text@);
                        }
                    }
                }
            },
            Err(error) => {
                proof {
                    lemma_first_problem(texts.len() as int, m + 1, faults);
                }
                return Err(error);
            },
        }
        m = m + 1;
    }
    Ok(members)
}

fn validate_group(groups: &Vec<RawGroup>, devices: &Vec<RawDevice>, k: usize) -> (result: Result<
    GroupConfiguration,
    ConfigError,
>)
    requires
        k < groups@.len(),
        forall|i: int|
            0 <= i < devices@.len() ==> (#[trigger] devices@[i]).capabilities.fault(
                "devices.capabilities"@,
                true,
            ) is None,
    ensures
        crate::config::answers(result, group_fault(groups@, devices@, k as int)),
        result matches Ok(configuration) ==> groups@[k as int].configures(configuration),
{
    let group = &groups[k];
    let id = match entity_id(&group.id, "groups.id") {
        Ok(id) => id,
        Err(error) => return Err(error),
    };
    if find_group(groups, k, id.as_str()) {
        return Err(ConfigError::validation("groups.id", "duplicate identifier"));
    }
    let (capabilities, mired_range) = match group.capabilities.validate(
        "groups.capabilities",
        false,
    ) {
        Ok(found) => found,
        Err(error) => return Err(error),
    };
    match validate_transition(
        group.single_transition_attribute,
        capabilities,
        "groups.single_transition_attribute",
    ) {
        Ok(()) => {},
        Err(error) => return Err(error),
    }
    if group.members.len() == 0 {
        return Err(ConfigError::validation("groups.members", "must not be empty"));
    }
    let members = match validate_members(groups, devices, k, capabilities, mired_range) {
        Ok(members) => members,
        Err(error) => return Err(error),
    };
    let color_temperature = match mired_range {
        Some(_) => capabilities.color_temperature,
        None => None,
    };
    let commandable = Capabilities {
        on_off: capabilities.on_off,
        dimming: capabilities.dimming,
        color_temperature,
        color_xy: capabilities.color_xy,
        color_hs: capabilities.color_hs,
        input: capabilities.input,
        occupancy: capabilities.occupancy,
        temperature: capabilities.temperature,
        power_metering: capabilities.power_metering,
    };
    let listed = copied_ids(&members);
    let definition = match GroupDefinition::new(id.clone(), listed, commandable) {
        Ok(definition) => definition,
        Err(_) => return Err(
            ConfigError::validation("groups", "invalid group membership or capabilities"),
        ),
    };
    match GroupBinding::new(
        id.clone(),
        group.friendly_name.clone(),
        mired_range,
        group.single_transition_attribute,
    ) {
        Ok(binding) => Ok(GroupConfiguration { id, members, mired_range, definition, binding }),
        Err(_) => Err(
            ConfigError::validation(
                "groups.friendly_name",
                "reserved, wildcard, or malformed Zigbee2MQTT name",
            ),
        ),
    }
}

fn copied_ids(ids: &Vec<DeviceId>) -> (copy: Vec<DeviceId>)
    ensures
        copy@ == ids@,
{
    let mut copy: Vec<DeviceId> = Vec::new();
    let mut i: usize = 0;
    while i < ids.len()
        invariant
            i <= ids@.len(),
            copy@ == ids@.take(i as int),
        decreases ids@.len() - i,
    {
        copy.push(ids[i].clone());
        i = i + 1;
        assert(copy@ =~= ids@.take(i as int));
    }
    assert(copy@ =~= ids@);
    copy
}

/// Each of the first `n` configured groups is what its description says.
pub open spec fn groups_follow(
    groups: Seq<RawGroup>,
    configurations: Seq<GroupConfiguration>,
    n: int,
) -> bool {
    configurations.len() == n && forall|i: int|
        0 <= i < n ==> groups[i].configures(#[trigger] configurations[i])
}

/// Requires devices with valid capabilities, against which members are held.
pub fn validate_groups(groups: &Vec<RawGroup>, devices: &Vec<RawDevice>) -> (result: Result<
    Vec<GroupConfiguration>,
    ConfigError,
>)
    requires
        forall|i: int|
            0 <= i < devices@.len() ==> (#[trigger] devices@[i]).capabilities.fault(
                "devices.capabilities"@,
                true,
            ) is None,
    ensures
        crate::config::answers(result, groups_fault(groups@, devices@)),
        result matches Ok(configurations) ==> groups_follow(
            groups@,
            configurations@,
            groups@.len() as int,
        ),
{
    let ghost faults = group_faults(groups@, devices@);
    let mut configurations: Vec<GroupConfiguration> = Vec::new();
    let mut i: usize = 0;
    while i < groups.len()
        invariant
            i <= groups@.len(),
            faults == group_faults(groups@, devices@),
            first_problem(i as int, faults) is None,
            groups_follow(groups@, configurations@, i as int),
            forall|i: int|
                0 <= i < devices@.len() ==> (#[trigger] devices@[i]).capabilities.fault(
                    "devices.capabilities"@,
                    true,
                ) is None,
        decreases groups@.len() - i,
    {
        assert(faults(i as int) == group_fault(groups@, devices@, i as int));
        match validate_group(groups, devices, i) {
            Ok(configuration) => {
                let ghost before = configurations@;
                configurations.push(configuration);
                assert(forall|j: int| 0 <= j < i ==> configurations@[j] == before[j]);
            },
            Err(error) => {
                proof {
                    lemma_first_problem(groups@.len() as int, i + 1, faults);
                }
                return Err(error);
            },
        }
        i = i + 1;
    }
    Ok(configurations)
}

// Scopes.

#[derive(Debug, PartialEq)]
pub enum RawScope {
    Room { id: String, room: String, curve: String },
    Floor { id: String, floor: String, curve: String },
    House { id: String, curve: String },
}

/// A part of the house that controls can act on, with its curve.
#[derive(Debug)]
pub struct ScopeConfiguration {
    pub id: ScopeId,
    pub scope: Scope,
    pub curve: ScopeId,
}

impl RawScope {
    pub open spec fn id(self) -> String {
        match self {
            RawScope::Room { id, .. } => id,
            RawScope::Floor { id, .. } => id,
            RawScope::House { id, .. } => id,
        }
    }

    pub open spec fn curve(self) -> String {
        match self {
            RawScope::Room { curve, .. } => curve,
            RawScope::Floor { curve, .. } => curve,
            RawScope::House { curve, .. } => curve,
        }
    }

    /// The part of the house that is meant.
    pub open spec fn resolved(self) -> Scope {
        match self {
            RawScope::Room { room, .. } => Scope::Room(ScopeId { text: room }),
            RawScope::Floor { floor, .. } => Scope::Floor(ScopeId { text: floor }),
            RawScope::House { .. } => Scope::House,
        }
    }

    pub open spec fn place_fault(self, floors: Seq<RawFloor>, rooms: Seq<RawRoom>) -> Option<
        Problem,
    > {
        match self {
            RawScope::Room { room, .. } => first_of(
                identifier_fault(room@, "scopes.room"@),
                if has_room(rooms, rooms.len() as int, room@) {
                    None
                } else {
                    Some(("scopes.room"@, "references unknown room"@))
                },
            ),
            RawScope::Floor { floor, .. } => first_of(
                identifier_fault(floor@, "scopes.floor"@),
                if has_floor(floors, floors.len() as int, floor@) {
                    None
                } else {
                    Some(("scopes.floor"@, "references unknown floor"@))
                },
            ),
            RawScope::House { .. } => None,
        }
    }

    fn name(&self) -> (name: &String)
        ensures
            *name == self.id(),
    {
        match self {
            RawScope::Room { id, .. } => id,
            RawScope::Floor { id, .. } => id,
            RawScope::House { id, .. } => id,
        }
    }

    fn curve_name(&self) -> (name: &String)
        ensures
            *name == self.curve(),
    {
        match self {
            RawScope::Room { curve, .. } => curve,
            RawScope::Floor { curve, .. } => curve,
            RawScope::House { curve, .. } => curve,
        }
    }

    fn resolve(&self) -> (scope: Scope)
        ensures
            scope == self.resolved(),
    {
        match self {
            RawScope::Room { room, .. } => Scope::Room(ScopeId { text: room.clone() }),
            RawScope::Floor { floor, .. } => Scope::Floor(ScopeId { text: floor.clone() }),
            RawScope::House { .. } => Scope::House,
        }
    }

    fn validate_place(&self, floors: &Vec<RawFloor>, rooms: &Vec<RawRoom>) -> (result: Result<
        (),
        ConfigError,
    >)
        ensures
            crate::config::answers(result, self.place_fault(floors@, rooms@)),
    {
        match self {
            RawScope::Room { room, .. } => {
                match scope_id(room, "scopes.room") {
                    Ok(_) => {},
                    Err(error) => return Err(error),
                }
                if find_room(rooms, rooms.len(), room.as_str()) >= rooms.len() {
                    return Err(ConfigError::validation("scopes.room", "references unknown room"));
                }
                Ok(())
            },
            RawScope::Floor { floor, .. } => {
                match scope_id(floor, "scopes.floor") {
                    Ok(_) => {},
                    Err(error) => return Err(error),
                }
                if !find_floor(floors, floors.len(), floor.as_str()) {
                    return Err(
                        ConfigError::validation("scopes.floor", "references unknown floor"),
                    );
                }
                Ok(())
            },
            RawScope::House { .. } => Ok(()),
        }
    }
}

pub open spec fn has_scope(scopes: Seq<RawScope>, n: int, name: Seq<char>) -> bool {
    exists|i: int| 0 <= i < n && (#[trigger] scopes[i]).id()@ == name
}

/// One of the first `n` scopes means the same part of the house.
pub open spec fn covered(scopes: Seq<RawScope>, n: int, scope: Scope) -> bool {
    exists|i: int| 0 <= i < n && (#[trigger] scopes[i]).resolved().key() == scope.key()
}

/// Some light that can be switched stands in the scope.
pub open spec fn lit(devices: Seq<RawDevice>, rooms: Seq<RawRoom>, scope: Scope) -> bool {
    exists|i: int|
        0 <= i < devices.len() && (#[trigger] devices[i]).capabilities.on_off && devices[i].place(
            rooms,
        ).within(scope)
}

/// The whole of a configured house, as it is written.
pub struct Plan {
    pub floors: Seq<RawFloor>,
    pub rooms: Seq<RawRoom>,
    pub curves: Seq<RawCurve>,
    pub devices: Seq<RawDevice>,
    pub scopes: Seq<RawScope>,
    pub controls: Seq<RawControl>,
}

pub open spec fn scope_fault(plan: Plan, k: int) -> Option<Problem> {
    let scope = plan.scopes[k];
    first_of(
        scope.place_fault(plan.floors, plan.rooms),
        first_of(
            identifier_fault(scope.id()@, "scopes.id"@),
            first_of(
                if scope.id()@ == "selected"@ {
                    Some(
                        (
                            "scopes.id"@,
                            "selected is reserved for the current control scope target"@,
                        ),
                    )
                } else {
                    None
                },
                first_of(
                    identifier_fault(scope.curve()@, "scopes.curve"@),
                    if !has_curve(plan.curves, plan.curves.len() as int, scope.curve()@) {
                        Some(("scopes.curve"@, "references unknown curve"@))
                    } else if has_scope(plan.scopes, k, scope.id()@) || covered(
                        plan.scopes,
                        k,
                        scope.resolved(),
                    ) {
                        Some(("scopes"@, "duplicate identifier or duplicate resolved scope"@))
                    } else if !lit(plan.devices, plan.rooms, scope.resolved()) {
                        Some(
                            (
                                "scopes"@,
                                "resolved scope must contain at least one device that is a controllable light"@,
                            ),
                        )
                    } else {
                        None
                    },
                ),
            ),
        ),
    )
}

pub open spec fn scope_faults(plan: Plan) -> spec_fn(int) -> Option<Problem> {
    |k: int| scope_fault(plan, k)
}

pub open spec fn scopes_fault(plan: Plan) -> Option<Problem> {
    if plan.scopes.len() == 0 {
        Some(("scopes"@, "must not be empty"@))
    } else {
        first_problem(plan.scopes.len() as int, scope_faults(plan))
    }
}

fn find_scope(scopes: &Vec<RawScope>, n: usize, name: &str) -> (place: usize)
    requires
        n <= scopes@.len(),
    ensures
        place == scope_place(scopes@, n as int, name@),
        place <= n,
        (place < n) == has_scope(scopes@, n as int, name@),
{
    let mut place: usize = 0;
    let mut i: usize = 0;
    while i < n
        invariant
            i <= n <= scopes@.len(),
            place == scope_place(scopes@, i as int, name@),
            place <= i,
        decreases n - i,
    {
        if place == i && !text::text_equals(scopes[i].name().as_str(), name) {
            place = i + 1;
        }
        i = i + 1;
    }
    proof {
        lemma_scope_place(scopes@, n as int, name@);
    }
    place
}

/// First place of a scope among the first `n`; `n` where it is not there.
pub open spec fn scope_place(scopes: Seq<RawScope>, n: int, name: Seq<char>) -> int
    decreases n,
{
    if n <= 0 {
        0
    } else {
        let before = scope_place(scopes, n - 1, name);
        if before < n - 1 || scopes[n - 1].id()@ == name {
            before
        } else {
            n
        }
    }
}

proof fn lemma_scope_place(scopes: Seq<RawScope>, n: int, name: Seq<char>)
    requires
        0 <= n <= scopes.len(),
    ensures
        0 <= scope_place(scopes, n, name) <= n,
        scope_place(scopes, n, name) < n ==> scopes[scope_place(scopes, n, name)].id()@ == name,
        (scope_place(scopes, n, name) < n) == has_scope(scopes, n, name),
    decreases n,
{
    if n > 0 {
        lemma_scope_place(scopes, n - 1, name);
        if has_scope(scopes, n - 1, name) {
            let i = choose|i: int| 0 <= i < n - 1 && (#[trigger] scopes[i]).id()@ == name;
            assert(scopes[i].id()@ == name);
        }
        if has_scope(scopes, n, name) && scopes[n - 1].id()@ != name {
            let i = choose|i: int| 0 <= i < n && (#[trigger] scopes[i]).id()@ == name;
            assert(i < n - 1);
        }
        if scopes[n - 1].id()@ == name {
            assert(has_scope(scopes, n, name));
        }
    }
}

fn is_covered(scopes: &Vec<RawScope>, n: usize, scope: &Scope) -> (result: bool)
    requires
        n <= scopes@.len(),
    ensures
        result == covered(scopes@, n as int, *scope),
{
    let mut i: usize = 0;
    while i < n
        invariant
            i <= n <= scopes@.len(),
            forall|j: int| 0 <= j < i ==> (#[trigger] scopes@[j]).resolved().key() != scope.key(),
        decreases n - i,
    {
        let earlier = scopes[i].resolve();
        if earlier.matches_key(scope) {
            assert(scopes@[i as int].resolved().key() == scope.key());
            return true;
        }
        i = i + 1;
    }
    false
}

fn is_lit(
    Ghost(devices): Ghost<Seq<RawDevice>>,
    Ghost(rooms): Ghost<Seq<RawRoom>>,
    configurations: &Vec<DeviceConfiguration>,
    scope: &Scope,
) -> (result: bool)
    requires
        devices_follow(devices, rooms, configurations@, devices.len() as int),
    ensures
        result == lit(devices, rooms, *scope),
{
    let mut i: usize = 0;
    while i < configurations.len()
        invariant
            i <= configurations@.len(),
            devices_follow(devices, rooms, configurations@, devices.len() as int),
            forall|j: int|
                0 <= j < i ==> !((#[trigger] devices[j]).capabilities.on_off && devices[j].place(
                    rooms,
                ).within(*scope)),
        decreases configurations@.len() - i,
    {
        assert(devices[i as int].configures(rooms, configurations@[i as int]));
        if configurations[i].is_controllable_light && configurations[i].membership.is_in(scope) {
            assert(devices[i as int].capabilities.on_off && devices[i as int].place(rooms).within(
                *scope,
            ));
            return true;
        }
        i = i + 1;
    }
    false
}

/// Each of the first `n` configured scopes is what its description says.
pub open spec fn scopes_follow(
    scopes: Seq<RawScope>,
    configurations: Seq<ScopeConfiguration>,
    n: int,
) -> bool {
    configurations.len() == n && forall|i: int|
        0 <= i < n ==> (#[trigger] configurations[i]).id.text == scopes[i].id()
            && configurations[i].scope == scopes[i].resolved() && configurations[i].curve.text
            == scopes[i].curve()
}

fn validate_scope(
    scopes: &Vec<RawScope>,
    floors: &Vec<RawFloor>,
    rooms: &Vec<RawRoom>,
    curves: &Vec<RawCurve>,
    devices: &Vec<DeviceConfiguration>,
    k: usize,
    Ghost(plan): Ghost<Plan>,
) -> (result: Result<ScopeConfiguration, ConfigError>)
    requires
        k < scopes@.len(),
        plan.floors == floors@,
        plan.rooms == rooms@,
        plan.curves == curves@,
        plan.scopes == scopes@,
        devices_follow(plan.devices, rooms@, devices@, plan.devices.len() as int),
    ensures
        crate::config::answers(result, scope_fault(plan, k as int)),
        result matches Ok(configuration) ==> configuration.id.text == scopes@[k as int].id()
            && configuration.scope == scopes@[k as int].resolved() && configuration.curve.text
            == scopes@[k as int].curve(),
{
    let raw = &scopes[k];
    match raw.validate_place(floors, rooms) {
        Ok(()) => {},
        Err(error) => return Err(error),
    }
    let scope = raw.resolve();
    let id = match scope_id(raw.name(), "scopes.id") {
        Ok(id) => id,
        Err(error) => return Err(error),
    };
    if text::text_equals(id.as_str(), "selected") {
        return Err(
            ConfigError::validation(
                "scopes.id",
                "selected is reserved for the current control scope target",
            ),
        );
    }
    let curve = match scope_id(raw.curve_name(), "scopes.curve") {
        Ok(curve) => curve,
        Err(error) => return Err(error),
    };
    if !find_curve(curves, curves.len(), curve.as_str()) {
        return Err(ConfigError::validation("scopes.curve", "references unknown curve"));
    }
    if find_scope(scopes, k, id.as_str()) < k || is_covered(scopes, k, &scope) {
        return Err(
            ConfigError::validation("scopes", "duplicate identifier or duplicate resolved scope"),
        );
    }
    if !is_lit(Ghost(plan.devices), Ghost(plan.rooms), devices, &scope) {
        return Err(
            ConfigError::validation(
                "scopes",
                "resolved scope must contain at least one device that is a controllable light",
            ),
        );
    }
    Ok(ScopeConfiguration { id, scope, curve })
}

pub(crate) fn validate_scopes(
    scopes: &Vec<RawScope>,
    floors: &Vec<RawFloor>,
    rooms: &Vec<RawRoom>,
    curves: &Vec<RawCurve>,
    devices: &Vec<DeviceConfiguration>,
    Ghost(plan): Ghost<Plan>,
) -> (result: Result<Vec<ScopeConfiguration>, ConfigError>)
    requires
        plan.floors == floors@,
        plan.rooms == rooms@,
        plan.curves == curves@,
        plan.scopes == scopes@,
        devices_follow(plan.devices, rooms@, devices@, plan.devices.len() as int),
    ensures
        crate::config::answers(result, scopes_fault(plan)),
        result matches Ok(configurations) ==> scopes_follow(
            scopes@,
            configurations@,
            scopes@.len() as int,
        ),
{
    if scopes.len() == 0 {
        return Err(ConfigError::validation("scopes", "must not be empty"));
    }
    let ghost faults = scope_faults(plan);
    let mut configurations: Vec<ScopeConfiguration> = Vec::new();
    let mut i: usize = 0;
    while i < scopes.len()
        invariant
            i <= scopes@.len(),
            scopes@.len() > 0,
            plan.floors == floors@,
            plan.rooms == rooms@,
            plan.curves == curves@,
            plan.scopes == scopes@,
            devices_follow(plan.devices, rooms@, devices@, plan.devices.len() as int),
            faults == scope_faults(plan),
            first_problem(i as int, faults) is None,
            scopes_follow(scopes@, configurations@, i as int),
        decreases scopes@.len() - i,
    {
        assert(faults(i as int) == scope_fault(plan, i as int));
        match validate_scope(scopes, floors, rooms, curves, devices, i, Ghost(plan)) {
            Ok(configuration) => {
                let ghost before = configurations@;
                configurations.push(configuration);
                assert(forall|j: int| 0 <= j < i ==> configurations@[j] == before[j]);
            },
            Err(error) => {
                proof {
                    lemma_first_problem(scopes@.len() as int, i + 1, faults);
                }
                return Err(error);
            },
        }
        i = i + 1;
    }
    Ok(configurations)
}

// Controls.

#[derive(Debug, PartialEq)]
pub struct RawMapping {
    pub gesture: String,
    pub target: String,
    pub action: RawAction,
}

#[derive(Debug, PartialEq)]
pub struct RawControl {
    pub id: String,
    pub aliases: Vec<String>,
    pub friendly_name: String,
    pub selected_scope: String,
    pub mappings: Vec<RawMapping>,
}

/// A control of the house.
#[derive(Debug)]
pub struct ControlConfiguration {
    pub id: ControlId,
    pub binding: ControlBinding,
    pub selected_scope: Scope,
    pub mapping: Mapping,
    pub acknowledgement_gestures: Vec<Gesture>,
    pub aliases: Vec<ControlId>,
}

/// `name` is the identifier or an alias of a device or of one of the first `n`
/// controls.
pub open spec fn name_used(plan: Plan, n: int, name: Seq<char>) -> bool {
    device_named(plan.devices, plan.devices.len() as int, name) || exists|j: int|
        0 <= j < n && ((#[trigger] plan.controls[j]).id@ == name || text::among(
            plan.controls[j].aliases@,
            name,
        ))
}

fn is_name_used(
    devices: &Vec<RawDevice>,
    controls: &Vec<RawControl>,
    n: usize,
    name: &str,
    Ghost(plan): Ghost<Plan>,
) -> (result: bool)
    requires
        n <= controls@.len(),
        plan.devices == devices@,
        plan.controls == controls@,
    ensures
        result == name_used(plan, n as int, name@),
{
    if is_device_named(devices, devices.len(), name) {
        return true;
    }
    let mut i: usize = 0;
    while i < n
        invariant
            i <= n <= controls@.len(),
            plan.controls == controls@,
            forall|j: int|
                0 <= j < i ==> !((#[trigger] controls@[j]).id@ == name@ || text::among(
                    controls@[j].aliases@,
                    name@,
                )),
        decreases n - i,
    {
        if text::text_equals(controls[i].id.as_str(), name) || text::is_among(
            &controls[i].aliases,
            name,
        ) {
            assert(plan.controls[i as int].id@ == name@ || text::among(
                plan.controls[i as int].aliases@,
                name@,
            ));
            return true;
        }
        i = i + 1;
    }
    false
}

pub open spec fn control_alias_fault(plan: Plan, k: int, a: int) -> Option<Problem> {
    let control = plan.controls[k];
    let alias = control.aliases@[a]@;
    first_of(
        identifier_fault(alias, "controls.aliases"@),
        if name_used(plan, k, alias) || alias == control.id@ || among_first(
            control.aliases@,
            a,
            alias,
        ) {
            Some(("controls.aliases"@, "duplicate identifier or alias"@))
        } else {
            None
        },
    )
}

pub open spec fn control_alias_faults(plan: Plan, k: int) -> spec_fn(int) -> Option<Problem> {
    |a: int| control_alias_fault(plan, k, a)
}

/// Identifiers in the words of texts.
pub open spec fn names_controls(ids: Seq<ControlId>, texts: Seq<String>, n: int) -> bool {
    ids.len() == n && forall|i: int| 0 <= i < n ==> (#[trigger] ids[i]).text == texts[i]
}

fn validate_control_aliases(
    devices: &Vec<RawDevice>,
    controls: &Vec<RawControl>,
    k: usize,
    Ghost(plan): Ghost<Plan>,
) -> (result: Result<Vec<ControlId>, ConfigError>)
    requires
        k < controls@.len(),
        plan.devices == devices@,
        plan.controls == controls@,
    ensures
        crate::config::answers(
            result,
            first_problem(
                controls@[k as int].aliases@.len() as int,
                control_alias_faults(plan, k as int),
            ),
        ),
        result matches Ok(aliases) ==> names_controls(
            aliases@,
            controls@[k as int].aliases@,
            controls@[k as int].aliases@.len() as int,
        ),
{
    let ghost faults = control_alias_faults(plan, k as int);
    let ghost count = controls@[k as int].aliases@.len() as int;
    let mut aliases: Vec<ControlId> = Vec::new();
    let mut a: usize = 0;
    while a < controls[k].aliases.len()
        invariant
            k < controls@.len(),
            a <= count,
            plan.devices == devices@,
            plan.controls == controls@,
            count == controls@[k as int].aliases@.len(),
            faults == control_alias_faults(plan, k as int),
            first_problem(a as int, faults) is None,
            names_controls(aliases@, controls@[k as int].aliases@, a as int),
        decreases count - a,
    {
        assert(faults(a as int) == control_alias_fault(plan, k as int, a as int));
        let alias = match control_id(&controls[k].aliases[a], "controls.aliases") {
            Ok(alias) => alias,
            Err(error) => {
                proof {
                    lemma_first_problem(count, a + 1, faults);
                }
                return Err(error);
            },
        };
        if is_name_used(devices, controls, k, alias.as_str(), Ghost(plan)) || text::text_equals(
            alias.as_str(),
            controls[k].id.as_str(),
        ) || is_among_first(&controls[k].aliases, a, alias.as_str()) {
            proof {
                lemma_first_problem(count, a + 1, faults);
            }
            return Err(
                ConfigError::validation("controls.aliases", "duplicate identifier or alias"),
            );
        }
        let ghost before = aliases@;
        aliases.push(alias);
        a = a + 1;
        assert(forall|j: int| 0 <= j < a - 1 ==> aliases@[j] == before[j]);
    }
    Ok(aliases)
}

impl RawMapping {
    /// The scope that the mapping names.
    pub open spec fn named_scope(self, scopes: Seq<RawScope>) -> Scope {
        scopes[scope_place(scopes, scopes.len() as int, self.target@)].resolved()
    }

    pub open spec fn entry(self, scopes: Seq<RawScope>) -> MappingEntry {
        MappingEntry {
            gesture: crate::config::gesture_named(self.gesture@)->Some_0,
            target: if self.target@ == "selected"@ {
                ScopeTarget::SelectedScope
            } else {
                ScopeTarget::Explicit(self.named_scope(scopes))
            },
            action: self.action.accepted(),
        }
    }

    pub open spec fn fault(self, scopes: Seq<RawScope>) -> Option<Problem> {
        first_of(
            if crate::config::gesture_named(self.gesture@) is None {
                Some(("controls.mappings.gesture"@, "unsupported gesture"@))
            } else {
                None
            },
            first_of(
                if self.target@ == "selected"@ {
                    None
                } else {
                    first_of(
                        identifier_fault(self.target@, "controls.mappings.target"@),
                        if has_scope(scopes, scopes.len() as int, self.target@) {
                            None
                        } else {
                            Some(("controls.mappings.target"@, "references unknown scope"@))
                        },
                    )
                },
                first_of(
                    self.action.fault(),
                    if self.entry(scopes).wf() {
                        None
                    } else {
                        Some(
                            ("controls.mappings"@, "action and target combination is invalid"@),
                        )
                    },
                ),
            ),
        )
    }

    fn validate(&self, scopes: &Vec<RawScope>) -> (result: Result<
        (MappingEntry, bool),
        ConfigError,
    >)
        ensures
            crate::config::answers(result, self.fault(scopes@)),
            result matches Ok(found) ==> found.0 == self.entry(scopes@) && found.1
                == self.action.acknowledges(),
    {
        let gesture = match crate::config::parse_gesture(self.gesture.as_str()) {
            Some(gesture) => gesture,
            None => return Err(
                ConfigError::validation("controls.mappings.gesture", "unsupported gesture"),
            ),
        };
        let target = if text::text_equals(self.target.as_str(), "selected") {
            ScopeTarget::SelectedScope
        } else {
            match scope_id(&self.target, "controls.mappings.target") {
                Ok(_) => {},
                Err(error) => return Err(error),
            }
            let place: usize = find_scope(scopes, scopes.len(), self.target.as_str());
            if place >= scopes.len() {
                return Err(
                    ConfigError::validation(
                        "controls.mappings.target",
                        "references unknown scope",
                    ),
                );
            }
            ScopeTarget::Explicit(scopes[place].resolve())
        };
        let (action, acknowledge) = match self.action.validate() {
            Ok(found) => found,
            Err(error) => return Err(error),
        };
        match MappingEntry::new(gesture, target, action) {
            Ok(entry) => Ok((entry, acknowledge)),
            Err(_) => Err(
                ConfigError::validation(
                    "controls.mappings",
                    "action and target combination is invalid",
                ),
            ),
        }
    }
}

pub open spec fn mapping_faults(mappings: Seq<RawMapping>, scopes: Seq<RawScope>) -> spec_fn(
    int,
) -> Option<Problem> {
    |m: int| mappings[m].fault(scopes)
}

pub open spec fn entries_of(mappings: Seq<RawMapping>, scopes: Seq<RawScope>) -> Seq<MappingEntry> {
    Seq::new(mappings.len(), |i: int| mappings[i].entry(scopes))
}

/// Gestures of the mappings that ask for an acknowledgement.
pub open spec fn acknowledged(mappings: Seq<RawMapping>) -> Seq<Gesture>
    decreases mappings.len(),
{
    if mappings.len() == 0 {
        Seq::empty()
    } else {
        let before = acknowledged(mappings.drop_last());
        if mappings.last().action.acknowledges() {
            before.push(crate::config::gesture_named(mappings.last().gesture@)->Some_0)
        } else {
            before
        }
    }
}

fn validate_mappings(mappings: &Vec<RawMapping>, scopes: &Vec<RawScope>) -> (result: Result<
    (Vec<MappingEntry>, Vec<Gesture>),
    ConfigError,
>)
    ensures
        crate::config::answers(
            result,
            first_problem(mappings@.len() as int, mapping_faults(mappings@, scopes@)),
        ),
        result matches Ok(found) ==> found.0@ == entries_of(mappings@, scopes@) && found.1@
            == acknowledged(mappings@),
{
    let ghost faults = mapping_faults(mappings@, scopes@);
    let ghost all = entries_of(mappings@, scopes@);
    let mut entries: Vec<MappingEntry> = Vec::new();
    let mut gestures: Vec<Gesture> = Vec::new();
    let mut m: usize = 0;
    assert(mappings@.take(0) =~= Seq::<RawMapping>::empty());
    while m < mappings.len()
        invariant
            m <= mappings@.len(),
            faults == mapping_faults(mappings@, scopes@),
            all == entries_of(mappings@, scopes@),
            first_problem(m as int, faults) is None,
            entries@ == all.take(m as int),
            gestures@ == acknowledged(mappings@.take(m as int)),
        decreases mappings@.len() - m,
    {
        assert(faults(m as int) == mappings@[m as int].fault(scopes@));
        match mappings[m].validate(scopes) {
            Ok((entry, acknowledge)) => {
                proof {
                    let next = mappings@.take(m + 1);
                    assert(next.drop_last() =~= mappings@.take(m as int));
                    assert(next.last() == mappings@[m as int]);
                }
                if acknowledge {
                    gestures.push(entry.gesture);
                }
                entries.push(entry);
            },
            Err(error) => {
                proof {
                    lemma_first_problem(mappings@.len() as int, m + 1, faults);
                }
                return Err(error);
            },
        }
        m = m + 1;
        assert(entries@ =~= all.take(m as int));
    }
    assert(entries@ =~= all);
    assert(mappings@.take(m as int) =~= mappings@);
    Ok((entries, gestures))
}

/// What a device must be able to do for an action to have an effect on it.
pub open spec fn follows(capabilities: Capabilities, action: Action) -> bool {
    match action {
        Action::AdjustBrightnessOffset(_) => capabilities.dimming,
        Action::AdjustColorTemperatureOffset(_) => capabilities.color_temperature is Some,
        Action::TogglePower => capabilities.on_off,
        Action::ToggleCircadian => true,
        Action::SelectScope => true,
    }
}

/// Some device in the scope follows the action; selecting a scope needs none.
pub open spec fn supports(
    devices: Seq<RawDevice>,
    rooms: Seq<RawRoom>,
    scope: Scope,
    action: Action,
) -> bool {
    action is SelectScope || exists|i: int|
        0 <= i < devices.len() && (#[trigger] devices[i]).place(rooms).within(scope) && follows(
            devices[i].capabilities.accepted(),
            action,
        )
}

fn scope_supports_action(
    scope: &Scope,
    action: Action,
    configurations: &Vec<DeviceConfiguration>,
    Ghost(devices): Ghost<Seq<RawDevice>>,
    Ghost(rooms): Ghost<Seq<RawRoom>>,
) -> (result: bool)
    requires
        devices_follow(devices, rooms, configurations@, devices.len() as int),
    ensures
        result == supports(devices, rooms, *scope, action),
{
    if action.is_select_scope() {
        return true;
    }
    let mut i: usize = 0;
    while i < configurations.len()
        invariant
            i <= configurations@.len(),
            action !is SelectScope,
            devices_follow(devices, rooms, configurations@, devices.len() as int),
            forall|j: int|
                0 <= j < i ==> !((#[trigger] devices[j]).place(rooms).within(*scope) && follows(
                    devices[j].capabilities.accepted(),
                    action,
                )),
        decreases configurations@.len() - i,
    {
        assert(devices[i as int].configures(rooms, configurations@[i as int]));
        let capabilities = configurations[i].definition.capabilities();
        let follows_action = match action {
            Action::AdjustBrightnessOffset(_) => capabilities.dimming,
            Action::AdjustColorTemperatureOffset(_) => capabilities.color_temperature.is_some(),
            Action::TogglePower => capabilities.on_off,
            Action::ToggleCircadian => true,
            Action::SelectScope => true,
        };
        if configurations[i].membership.is_in(scope) && follows_action {
            assert(devices[i as int].place(rooms).within(*scope) && follows(
                devices[i as int].capabilities.accepted(),
                action,
            ));
            return true;
        }
        i = i + 1;
    }
    false
}

/// The entry's action has an effect in every scope that it can be aimed at.
pub open spec fn effective(
    devices: Seq<RawDevice>,
    rooms: Seq<RawRoom>,
    selected: Scope,
    entries: Seq<MappingEntry>,
    entry: MappingEntry,
) -> bool {
    match entry.target {
        ScopeTarget::SelectedScope => supports(devices, rooms, selected, entry.action) && forall|
            j: int,
        |
            0 <= j < entries.len() && (#[trigger] entries[j]).action is SelectScope
                && entries[j].target is Explicit ==> supports(
                devices,
                rooms,
                entries[j].target->Explicit_0,
                entry.action,
            ),
        ScopeTarget::Explicit(scope) => supports(devices, rooms, scope, entry.action),
    }
}

fn is_effective(
    selected: &Scope,
    entries: &Vec<MappingEntry>,
    e: usize,
    configurations: &Vec<DeviceConfiguration>,
    Ghost(devices): Ghost<Seq<RawDevice>>,
    Ghost(rooms): Ghost<Seq<RawRoom>>,
) -> (result: bool)
    requires
        e < entries@.len(),
        devices_follow(devices, rooms, configurations@, devices.len() as int),
    ensures
        result == effective(devices, rooms, *selected, entries@, entries@[e as int]),
{
    let action = entries[e].action();
    match entries[e].target() {
        ScopeTarget::SelectedScope => {
            if !scope_supports_action(
                selected,
                action,
                configurations,
                Ghost(devices),
                Ghost(rooms),
            ) {
                return false;
            }
            let mut j: usize = 0;
            while j < entries.len()
                invariant
                    j <= entries@.len(),
                    devices_follow(devices, rooms, configurations@, devices.len() as int),
                    e < entries@.len(),
                    action == entries@[e as int].action,
                    entries@[e as int].target is SelectedScope,
                    forall|i: int|
                        0 <= i < j && (#[trigger] entries@[i]).action is SelectScope
                            && entries@[i].target is Explicit ==> supports(
                            devices,
                            rooms,
                            entries@[i].target->Explicit_0,
                            action,
                        ),
                decreases entries@.len() - j,
            {
                if entries[j].action().is_select_scope() {
                    match entries[j].target() {
                        ScopeTarget::Explicit(scope) => {
                            if !scope_supports_action(
                                scope,
                                action,
                                configurations,
                                Ghost(devices),
                                Ghost(rooms),
                            ) {
                                assert(!supports(
                                    devices,
                                    rooms,
                                    entries@[j as int].target->Explicit_0,
                                    action,
                                ));
                                return false;
                            }
                        },
                        ScopeTarget::SelectedScope => {},
                    }
                }
                j = j + 1;
            }
            true
        },
        ScopeTarget::Explicit(scope) => scope_supports_action(
            scope,
            action,
            configurations,
            Ghost(devices),
            Ghost(rooms),
        ),
    }
}

impl RawControl {
    pub open spec fn selected(self, scopes: Seq<RawScope>) -> Scope {
        scopes[scope_place(scopes, scopes.len() as int, self.selected_scope@)].resolved()
    }

    /// Some entry's action has no effect somewhere.
    pub open spec fn has_idle_entry(self, plan: Plan) -> bool {
        let entries = entries_of(self.mappings@, plan.scopes);
        exists|e: int|
            0 <= e < entries.len() && !effective(
                plan.devices,
                plan.rooms,
                self.selected(plan.scopes),
                entries,
                #[trigger] entries[e],
            )
    }

    /// `configuration` is what the control says.
    pub open spec fn configures(
        self,
        scopes: Seq<RawScope>,
        configuration: ControlConfiguration,
    ) -> bool {
        &&& configuration.id.text == self.id
        &&& configuration.binding == (ControlBinding {
            id: ControlId { text: self.id },
            friendly_name: self.friendly_name,
        })
        &&& configuration.selected_scope == self.selected(scopes)
        &&& configuration.mapping.entries@ == entries_of(self.mappings@, scopes)
        &&& configuration.mapping.wf()
        &&& configuration.acknowledgement_gestures@ == acknowledged(self.mappings@)
        &&& names_controls(configuration.aliases@, self.aliases@, self.aliases@.len() as int)
    }
}

pub open spec fn control_fault(plan: Plan, k: int) -> Option<Problem> {
    let control = plan.controls[k];
    let entries = entries_of(control.mappings@, plan.scopes);
    first_of(
        identifier_fault(control.id@, "controls.id"@),
        first_of(
            if name_used(plan, k, control.id@) {
                Some(("controls.id"@, "duplicate identifier or alias"@))
            } else {
                None
            },
            first_of(
                first_problem(control.aliases@.len() as int, control_alias_faults(plan, k)),
                first_of(
                    identifier_fault(control.selected_scope@, "controls.selected_scope"@),
                    first_of(
                        if !has_scope(
                            plan.scopes,
                            plan.scopes.len() as int,
                            control.selected_scope@,
                        ) {
                            Some(("controls.selected_scope"@, "references unknown scope"@))
                        } else if control.mappings@.len() == 0 {
                            Some(("controls.mappings"@, "must not be empty"@))
                        } else {
                            None
                        },
                        first_of(
                            first_problem(
                                control.mappings@.len() as int,
                                mapping_faults(control.mappings@, plan.scopes),
                            ),
                            if control.has_idle_entry(plan) {
                                Some(
                                    (
                                        "controls.mappings.action"@,
                                        "requires a matching device capability in every possible target scope"@,
                                    ),
                                )
                            } else if !crate::input::gestures_differ(
                                entries,
                                entries.len() as int,
                            ) {
                                Some(
                                    (
                                        "controls.mappings"@,
                                        "a gesture may have only one mapping per control"@,
                                    ),
                                )
                            } else if !crate::zigbee2mqtt::friendly(control.friendly_name@) {
                                Some(
                                    (
                                        "controls.friendly_name"@,
                                        "reserved, wildcard, or malformed Zigbee2MQTT name"@,
                                    ),
                                )
                            } else {
                                None
                            },
                        ),
                    ),
                ),
            ),
        ),
    )
}

pub open spec fn control_faults(plan: Plan) -> spec_fn(int) -> Option<Problem> {
    |k: int| control_fault(plan, k)
}

pub open spec fn controls_fault(plan: Plan) -> Option<Problem> {
    if plan.controls.len() == 0 {
        Some(("controls"@, "must not be empty"@))
    } else {
        first_problem(plan.controls.len() as int, control_faults(plan))
    }
}

/// A mapping of these entries, and the problem where some entry is idle or a
/// gesture occurs twice.
fn validate_entries(
    control: &RawControl,
    selected: &Scope,
    entries: Vec<MappingEntry>,
    configurations: &Vec<DeviceConfiguration>,
    Ghost(plan): Ghost<Plan>,
) -> (result: Result<Mapping, ConfigError>)
    requires
        entries@ == entries_of(control.mappings@, plan.scopes),
        *selected == control.selected(plan.scopes),
        devices_follow(plan.devices, plan.rooms, configurations@, plan.devices.len() as int),
    ensures
        crate::config::answers(
            result,
            if control.has_idle_entry(plan) {
                Some(
                    (
                        "controls.mappings.action"@,
                        "requires a matching device capability in every possible target scope"@,
                    ),
                )
            } else if !crate::input::gestures_differ(entries@, entries@.len() as int) {
                Some(
                    ("controls.mappings"@, "a gesture may have only one mapping per control"@),
                )
            } else {
                None
            },
        ),
        result matches Ok(mapping) ==> mapping.entries@ == entries@ && mapping.wf(),
{
    let mut e: usize = 0;
    while e < entries.len()
        invariant
            e <= entries@.len(),
            entries@ == entries_of(control.mappings@, plan.scopes),
            *selected == control.selected(plan.scopes),
            devices_follow(plan.devices, plan.rooms, configurations@, plan.devices.len() as int),
            forall|j: int|
                0 <= j < e ==> effective(
                    plan.devices,
                    plan.rooms,
                    *selected,
                    entries@,
                    #[trigger] entries@[j],
                ),
        decreases entries@.len() - e,
    {
        if !is_effective(
            selected,
            &entries,
            e,
            configurations,
            Ghost(plan.devices),
            Ghost(plan.rooms),
        ) {
            assert(!effective(
                plan.devices,
                plan.rooms,
                control.selected(plan.scopes),
                entries_of(control.mappings@, plan.scopes),
                entries_of(control.mappings@, plan.scopes)[e as int],
            ));
            return Err(
                ConfigError::validation(
                    "controls.mappings.action",
                    "requires a matching device capability in every possible target scope",
                ),
            );
        }
        e = e + 1;
    }
    match Mapping::new(entries) {
        Ok(mapping) => Ok(mapping),
        Err(_) => {
            proof {
                if crate::input::gestures_differ(entries@, entries@.len() as int) {
                    let i = choose|i: int|
                        0 <= i < entries@.len() && crate::input::gesture_listed(
                            entries@,
                            i,
                            (#[trigger] entries@[i]).gesture,
                        );
                    let j = choose|j: int|
                        0 <= j < i && (#[trigger] entries@[j]).gesture == entries@[i].gesture;
                    assert(entries@[j].gesture != entries@[i].gesture);
                }
            }
            Err(
                ConfigError::validation(
                    "controls.mappings",
                    "a gesture may have only one mapping per control",
                ),
            )
        },
    }
}

fn validate_control(
    controls: &Vec<RawControl>,
    scopes: &Vec<RawScope>,
    devices: &Vec<RawDevice>,
    configurations: &Vec<DeviceConfiguration>,
    k: usize,
    Ghost(plan): Ghost<Plan>,
) -> (result: Result<ControlConfiguration, ConfigError>)
    requires
        k < controls@.len(),
        plan.controls == controls@,
        plan.scopes == scopes@,
        plan.devices == devices@,
        devices_follow(plan.devices, plan.rooms, configurations@, plan.devices.len() as int),
    ensures
        crate::config::answers(result, control_fault(plan, k as int)),
        result matches Ok(configuration) ==> controls@[k as int].configures(
            scopes@,
            configuration,
        ),
{
    let control = &controls[k];
    let id = match control_id(&control.id, "controls.id") {
        Ok(id) => id,
        Err(error) => return Err(error),
    };
    if is_name_used(devices, controls, k, id.as_str(), Ghost(plan)) {
        return Err(ConfigError::validation("controls.id", "duplicate identifier or alias"));
    }
    let aliases = match validate_control_aliases(devices, controls, k, Ghost(plan)) {
        Ok(aliases) => aliases,
        Err(error) => return Err(error),
    };
    match scope_id(&control.selected_scope, "controls.selected_scope") {
        Ok(_) => {},
        Err(error) => return Err(error),
    }
    let place: usize = find_scope(scopes, scopes.len(), control.selected_scope.as_str());
    if place >= scopes.len() {
        return Err(
            ConfigError::validation("controls.selected_scope", "references unknown scope"),
        );
    }
    let selected_scope = scopes[place].resolve();
    if control.mappings.len() == 0 {
        return Err(ConfigError::validation("controls.mappings", "must not be empty"));
    }
    let (entries, acknowledgement_gestures) = match validate_mappings(&control.mappings, scopes) {
        Ok(found) => found,
        Err(error) => return Err(error),
    };
    let mapping = match validate_entries(
        control,
        &selected_scope,
        entries,
        configurations,
        Ghost(plan),
    ) {
        Ok(mapping) => mapping,
        Err(error) => return Err(error),
    };
    match ControlBinding::new(id.clone(), control.friendly_name.clone()) {
        Ok(binding) => Ok(
            ControlConfiguration {
                id,
                binding,
                selected_scope,
                mapping,
                acknowledgement_gestures,
                aliases,
            },
        ),
        Err(_) => Err(
            ConfigError::validation(
                "controls.friendly_name",
                "reserved, wildcard, or malformed Zigbee2MQTT name",
            ),
        ),
    }
}

/// Each of the first `n` configured controls is what its description says.
pub open spec fn controls_follow(
    controls: Seq<RawControl>,
    scopes: Seq<RawScope>,
    configurations: Seq<ControlConfiguration>,
    n: int,
) -> bool {
    configurations.len() == n && forall|i: int|
        0 <= i < n ==> controls[i].configures(scopes, #[trigger] configurations[i])
}

pub(crate) fn validate_controls(
    controls: &Vec<RawControl>,
    scopes: &Vec<RawScope>,
    devices: &Vec<RawDevice>,
    configured_devices: &Vec<DeviceConfiguration>,
    Ghost(plan): Ghost<Plan>,
) -> (result: Result<Vec<ControlConfiguration>, ConfigError>)
    requires
        plan.controls == controls@,
        plan.scopes == scopes@,
        plan.devices == devices@,
        devices_follow(plan.devices, plan.rooms, configured_devices@, plan.devices.len() as int),
    ensures
        crate::config::answers(result, controls_fault(plan)),
        result matches Ok(configurations) ==> controls_follow(
            controls@,
            scopes@,
            configurations@,
            controls@.len() as int,
        ),
{
    if controls.len() == 0 {
        return Err(ConfigError::validation("controls", "must not be empty"));
    }
    let ghost faults = control_faults(plan);
    let mut configurations: Vec<ControlConfiguration> = Vec::new();
    let mut i: usize = 0;
    while i < controls.len()
        invariant
            i <= controls@.len(),
            controls@.len() > 0,
            plan.controls == controls@,
            plan.scopes == scopes@,
            plan.devices == devices@,
            devices_follow(
                plan.devices,
                plan.rooms,
                configured_devices@,
                plan.devices.len() as int,
            ),
            faults == control_faults(plan),
            first_problem(i as int, faults) is None,
            controls_follow(controls@, scopes@, configurations@, i as int),
        decreases controls@.len() - i,
    {
        assert(faults(i as int) == control_fault(plan, i as int));
        match validate_control(controls, scopes, devices, configured_devices, i, Ghost(plan)) {
            Ok(configuration) => {
                let ghost before = configurations@;
                configurations.push(configuration);
                assert(forall|j: int| 0 <= j < i ==> configurations@[j] == before[j]);
            },
            Err(error) => {
                proof {
                    lemma_first_problem(controls@.len() as int, i + 1, faults);
                }
                return Err(error);
            },
        }
        i = i + 1;
    }
    Ok(configurations)
}

} // verus!
