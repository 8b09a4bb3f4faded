//! Light values: brightness, colour temperature, colour and the targets built
//! from them.
use crate::double::Double;
use vstd::prelude::*;

verus! {

/// Bits of `1.0`.
pub const ONE: u64 = 0x3ff0_0000_0000_0000;

/// Bits of `360.0`.
pub const FULL_TURN: u64 = 0x4076_8000_0000_0000;

/// Bits of `1_000_000.0`: mireds times Kelvin.
pub const MIRED_SCALE: u64 = 0x412e_8480_0000_0000;

#[derive(Debug, Clone, Copy, PartialEq)]
pub enum ValueError {
    NonFinite,
    OutOfRange { minimum: Double, maximum: Double },
    NonPositiveKelvin,
    UnrepresentableMired,
    InvalidKelvinRange,
}

/// `value` when it is a finite member of `minimum..=maximum`.
pub open spec fn in_range(
    value: Double,
    minimum: Double,
    maximum: Double,
) -> Result<Double, ValueError> {
    if !value.finite() {
        Err(ValueError::NonFinite)
    } else if minimum.at_most(value) && value.at_most(maximum) {
        Ok(value)
    } else {
        Err(ValueError::OutOfRange { minimum, maximum })
    }
}

fn validate_finite_range(value: Double, minimum: Double, maximum: Double) -> (result: Result<
    Double,
    ValueError,
>)
    ensures
        result == in_range(value, minimum, maximum),
{
    if !value.is_finite() {
        return Err(ValueError::NonFinite);
    }
    if !(minimum.le(value) && value.le(maximum)) {
        return Err(ValueError::OutOfRange { minimum, maximum });
    }
    Ok(value)
}

/// Normalized light output, between zero and one.
#[derive(Debug, Clone, Copy, PartialEq)]
pub struct Brightness {
    pub value: Double,
}

impl Brightness {
    pub open spec fn wf(self) -> bool {
        &&& self.value.finite()
        &&& Double { bits: 0 }.at_most(self.value)
        &&& self.value.at_most(Double { bits: ONE })
    }

    /// The brightness nearest to `value`.
    pub open spec fn bounded(value: Double) -> Result<Brightness, ValueError> {
        if value.finite() {
            Ok(Brightness { value: value.limited(Double { bits: 0 }, Double { bits: ONE }) })
        } else {
            Err(ValueError::NonFinite)
        }
    }

    pub fn new(value: Double) -> (result: Result<Self, ValueError>)
        ensures
            result == match in_range(value, Double { bits: 0 }, Double { bits: ONE }) {
                Ok(value) => Ok::<Brightness, ValueError>(Brightness { value }),
                Err(error) => Err(error),
            },
            result matches Ok(brightness) ==> brightness.wf(),
    {
        match validate_finite_range(value, Double { bits: 0 }, Double { bits: ONE }) {
            Ok(value) => Ok(Brightness { value }),
            Err(error) => Err(error),
        }
    }

    pub fn clamped(value: Double) -> (result: Result<Self, ValueError>)
        ensures
            result == Brightness::bounded(value),
            result matches Ok(brightness) ==> brightness.wf(),
    {
        if !value.is_finite() {
            return Err(ValueError::NonFinite);
        }
        Ok(Brightness { value: value.clamp(Double { bits: 0 }, Double { bits: ONE }) })
    }

    pub fn get(self) -> (value: Double)
        ensures
            value == self.value,
    {
        self.value
    }

    pub fn with_offset(self, offset: Double) -> (result: Result<Self, ValueError>)
        ensures
            result == if offset.finite() {
                Brightness::bounded(self.value.sum(offset))
            } else {
                Err(ValueError::NonFinite)
            },
            result matches Ok(brightness) ==> brightness.wf(),
    {
        if !offset.is_finite() {
            return Err(ValueError::NonFinite);
        }
        Brightness::clamped(self.value.plus(offset))
    }
}

/// A positive colour temperature with a finite mired representation.
#[derive(Debug, Clone, Copy, PartialEq)]
pub struct Kelvin {
    pub value: Double,
}

impl Kelvin {
    pub open spec fn wf(self) -> bool {
        Kelvin::checked(self.value) is Ok
    }

    pub open spec fn checked(value: Double) -> Result<Kelvin, ValueError> {
        if !value.finite() {
            Err(ValueError::NonFinite)
        } else if value.at_most(Double { bits: 0 }) {
            Err(ValueError::NonPositiveKelvin)
        } else if !(Double { bits: MIRED_SCALE }).quotient(value).finite() {
            Err(ValueError::UnrepresentableMired)
        } else {
            Ok(Kelvin { value })
        }
    }

    pub fn new(value: Double) -> (result: Result<Self, ValueError>)
        ensures
            result == Kelvin::checked(value),
            result matches Ok(kelvin) ==> kelvin.wf() && kelvin.value == value,
    {
        if !value.is_finite() {
            return Err(ValueError::NonFinite);
        }
        if value.le(Double { bits: 0 }) {
            return Err(ValueError::NonPositiveKelvin);
        }
        if !Double::from_bits(MIRED_SCALE).over(value).is_finite() {
            return Err(ValueError::UnrepresentableMired);
        }
        Ok(Kelvin { value })
    }

    pub fn get(self) -> (value: Double)
        ensures
            value == self.value,
    {
        self.value
    }
}

/// Colour temperatures that a light can show.
#[derive(Debug, Clone, Copy, PartialEq)]
pub struct KelvinRange {
    pub min: Kelvin,
    pub max: Kelvin,
}

impl KelvinRange {
    pub open spec fn wf(self) -> bool {
        self.min.wf() && self.max.wf() && self.min.value.at_most(self.max.value)
    }

    pub open spec fn checked(min: Double, max: Double) -> Result<KelvinRange, ValueError> {
        match (Kelvin::checked(min), Kelvin::checked(max)) {
            (Err(error), _) => Err(error),
            (_, Err(error)) => Err(error),
            (Ok(low), Ok(high)) => if high.value.less(low.value) {
                Err(ValueError::InvalidKelvinRange)
            } else {
                Ok(KelvinRange { min: low, max: high })
            },
        }
    }

    pub open spec fn bounded(self, kelvin: Double) -> Double {
        kelvin.limited(self.min.value, self.max.value)
    }

    pub fn new(min: Double, max: Double) -> (result: Result<Self, ValueError>)
        ensures
            result == KelvinRange::checked(min, max),
            result matches Ok(range) ==> range.wf(),
    {
        let min = match Kelvin::new(min) {
            Ok(min) => min,
            Err(error) => return Err(error),
        };
        let max = match Kelvin::new(max) {
            Ok(max) => max,
            Err(error) => return Err(error),
        };
        if max.value.lt(min.value) {
            return Err(ValueError::InvalidKelvinRange);
        }
        Ok(KelvinRange { min, max })
    }

    pub fn min(self) -> (kelvin: Kelvin)
        ensures
            kelvin == self.min,
    {
        self.min
    }

    pub fn max(self) -> (kelvin: Kelvin)
        ensures
            kelvin == self.max,
    {
        self.max
    }

    pub fn clamp(self, kelvin: Kelvin) -> (result: Kelvin)
        ensures
            result.value == self.bounded(kelvin.value),
            self.wf() && kelvin.wf() ==> result.wf(),
    {
        Kelvin { value: kelvin.value.clamp(self.min.value, self.max.value) }
    }

    pub fn with_offset(self, kelvin: Kelvin, offset: Double) -> (result: Result<Kelvin, ValueError>)
        ensures
            result == if offset.finite() && kelvin.value.sum(offset).finite() {
                Ok::<Kelvin, ValueError>(
                    Kelvin { value: self.bounded(kelvin.value.sum(offset)) },
                )
            } else {
                Err(ValueError::NonFinite)
            },
    {
        if !offset.is_finite() {
            return Err(ValueError::NonFinite);
        }
        let adjusted = kelvin.value.plus(offset);
        if !adjusted.is_finite() {
            return Err(ValueError::NonFinite);
        }
        Ok(Kelvin { value: adjusted.clamp(self.min.value, self.max.value) })
    }
}

/// A colour, by its chromaticity or by its hue and saturation.
#[derive(Debug, Clone, Copy, PartialEq)]
pub enum Color {
    Xy { x: Double, y: Double },
    Hs { hue: Double, saturation: Double },
}

impl Color {
    pub open spec fn wf(self) -> bool {
        match self {
            Color::Xy { x, y } => in_range(x, Double { bits: 0 }, Double { bits: ONE }) is Ok
                && in_range(y, Double { bits: 0 }, Double { bits: ONE }) is Ok,
            Color::Hs { hue, saturation } => in_range(
                hue,
                Double { bits: 0 },
                Double { bits: FULL_TURN },
            ) is Ok && in_range(saturation, Double { bits: 0 }, Double { bits: ONE }) is Ok,
        }
    }

    /// `color` when both components, already checked, are in range.
    pub open spec fn accepted(
        first: Result<Double, ValueError>,
        second: Result<Double, ValueError>,
        color: Color,
    ) -> Result<Color, ValueError> {
        match (first, second) {
            (Err(error), _) => Err(error),
            (_, Err(error)) => Err(error),
            (Ok(_), Ok(_)) => Ok(color),
        }
    }

    pub fn xy(x: Double, y: Double) -> (result: Result<Self, ValueError>)
        ensures
            result == Color::accepted(
                in_range(x, Double { bits: 0 }, Double { bits: ONE }),
                in_range(y, Double { bits: 0 }, Double { bits: ONE }),
                Color::Xy { x, y },
            ),
            result matches Ok(color) ==> color.wf(),
    {
        if let Err(error) = validate_finite_range(x, Double { bits: 0 }, Double { bits: ONE }) {
            return Err(error);
        }
        if let Err(error) = validate_finite_range(y, Double { bits: 0 }, Double { bits: ONE }) {
            return Err(error);
        }
        Ok(Color::Xy { x, y })
    }

    pub fn hs(hue: Double, saturation: Double) -> (result: Result<Self, ValueError>)
        ensures
            result == Color::accepted(
                in_range(hue, Double { bits: 0 }, Double { bits: FULL_TURN }),
                in_range(saturation, Double { bits: 0 }, Double { bits: ONE }),
                Color::Hs { hue, saturation },
            ),
            result matches Ok(color) ==> color.wf(),
    {
        if let Err(error) = validate_finite_range(
            hue,
            Double { bits: 0 },
            Double { bits: FULL_TURN },
        ) {
            return Err(error);
        }
        if let Err(error) = validate_finite_range(
            saturation,
            Double { bits: 0 },
            Double { bits: ONE },
        ) {
            return Err(error);
        }
        Ok(Color::Hs { hue, saturation })
    }

    pub fn xy_components(self) -> (components: Option<(Double, Double)>)
        ensures
            components == match self {
                Color::Xy { x, y } => Some((x, y)),
                Color::Hs { .. } => None,
            },
    {
        match self {
            Color::Xy { x, y } => Some((x, y)),
            Color::Hs { hue: _, saturation: _ } => None,
        }
    }

    pub fn hs_components(self) -> (components: Option<(Double, Double)>)
        ensures
            components == match self {
                Color::Xy { .. } => None,
                Color::Hs { hue, saturation } => Some((hue, saturation)),
            },
    {
        match self {
            Color::Xy { x: _, y: _ } => None,
            Color::Hs { hue, saturation } => Some((hue, saturation)),
        }
    }

    /// Numeric equality of two colours.
    pub open spec fn same(self, other: Color) -> bool {
        match (self, other) {
            (Color::Xy { x, y }, Color::Xy { x: x2, y: y2 }) => x.same(x2) && y.same(y2),
            (
                Color::Hs { hue, saturation },
                Color::Hs { hue: hue2, saturation: saturation2 },
            ) => hue.same(hue2) && saturation.same(saturation2),
            _ => false,
        }
    }

    pub fn equals(self, other: Color) -> (result: bool)
        ensures
            result == self.same(other),
    {
        match (self, other) {
            (Color::Xy { x, y }, Color::Xy { x: x2, y: y2 }) => x.equals(x2) && y.equals(y2),
            (
                Color::Hs { hue, saturation },
                Color::Hs { hue: hue2, saturation: saturation2 },
            ) => hue.equals(hue2) && saturation.equals(saturation2),
            _ => false,
        }
    }
}

pub open spec fn same_brightness(a: Option<Brightness>, b: Option<Brightness>) -> bool {
    match (a, b) {
        (Some(x), Some(y)) => x.value.same(y.value),
        (None, None) => true,
        _ => false,
    }
}

pub fn brightness_equals(a: Option<Brightness>, b: Option<Brightness>) -> (result: bool)
    ensures
        result == same_brightness(a, b),
{
    match (a, b) {
        (Some(x), Some(y)) => x.value.equals(y.value),
        (None, None) => true,
        _ => false,
    }
}

pub open spec fn same_kelvin(a: Option<Kelvin>, b: Option<Kelvin>) -> bool {
    match (a, b) {
        (Some(x), Some(y)) => x.value.same(y.value),
        (None, None) => true,
        _ => false,
    }
}

pub fn kelvin_equals(a: Option<Kelvin>, b: Option<Kelvin>) -> (result: bool)
    ensures
        result == same_kelvin(a, b),
{
    match (a, b) {
        (Some(x), Some(y)) => x.value.equals(y.value),
        (None, None) => true,
        _ => false,
    }
}

pub open spec fn same_color(a: Option<Color>, b: Option<Color>) -> bool {
    match (a, b) {
        (Some(x), Some(y)) => x.same(y),
        (None, None) => true,
        _ => false,
    }
}

pub fn color_equals(a: Option<Color>, b: Option<Color>) -> (result: bool)
    ensures
        result == same_color(a, b),
{
    match (a, b) {
        (Some(x), Some(y)) => x.equals(y),
        (None, None) => true,
        _ => false,
    }
}

/// What a light should show.
#[derive(Debug, Clone, Copy, PartialEq)]
pub struct LightTarget {
    pub on: bool,
    pub brightness: Option<Brightness>,
    pub color_temperature: Option<Kelvin>,
    pub color: Option<Color>,
    pub transition_ms: Option<u64>,
}

impl LightTarget {
    /// Numeric equality, field by field.
    pub open spec fn same(self, other: LightTarget) -> bool {
        &&& self.on == other.on
        &&& same_brightness(self.brightness, other.brightness)
        &&& same_kelvin(self.color_temperature, other.color_temperature)
        &&& same_color(self.color, other.color)
        &&& self.transition_ms == other.transition_ms
    }

    pub fn equals(&self, other: &LightTarget) -> (result: bool)
        ensures
            result == self.same(*other),
    {
        self.on == other.on && brightness_equals(self.brightness, other.brightness)
            && kelvin_equals(self.color_temperature, other.color_temperature) && color_equals(
            self.color,
            other.color,
        ) && self.transition_ms == other.transition_ms
    }
}

/// Finite lighting layers before device bounds are applied.
///
/// Keeping this intermediate unclamped lets later layers compensate for an
/// earlier offset before the final device target is bounded.
#[derive(Debug, Clone, Copy, PartialEq)]
pub struct LayeredLightTarget {
    pub on: bool,
    pub brightness: Option<Double>,
    pub color_temperature_kelvin: Option<Double>,
    pub color: Option<Color>,
    pub transition_ms: Option<u64>,
}

impl LayeredLightTarget {
    pub open spec fn wf(self) -> bool {
        &&& self.brightness matches Some(value) ==> value.finite()
        &&& self.color_temperature_kelvin matches Some(value) ==> value.finite()
    }

    /// The layers, when both numbers are finite.
    pub open spec fn checked(self) -> Result<LayeredLightTarget, ValueError> {
        if self.wf() {
            Ok(self)
        } else {
            Err(ValueError::NonFinite)
        }
    }

    /// The target that remains once device bounds are applied.
    pub open spec fn finalized(self, range: KelvinRange) -> Result<LightTarget, ValueError> {
        let brightness = match self.brightness {
            None => Ok(None::<Brightness>),
            Some(value) => match Brightness::bounded(value) {
                Ok(brightness) => Ok(Some(brightness)),
                Err(error) => Err(error),
            },
        };
        let color_temperature = match (self.color, self.color_temperature_kelvin) {
            (None, Some(value)) => match Kelvin::checked(range.bounded(value)) {
                Ok(kelvin) => Ok(Some(kelvin)),
                Err(error) => Err(error),
            },
            _ => Ok(None::<Kelvin>),
        };
        match (brightness, color_temperature) {
            (Err(error), _) => Err(error),
            (_, Err(error)) => Err(error),
            (Ok(brightness), Ok(color_temperature)) => Ok(
                LightTarget {
                    on: self.on,
                    brightness,
                    color_temperature,
                    color: self.color,
                    transition_ms: self.transition_ms,
                },
            ),
        }
    }

    pub fn new(
        on: bool,
        brightness: Option<Double>,
        color_temperature_kelvin: Option<Double>,
        color: Option<Color>,
        transition_ms: Option<u64>,
    ) -> (result: Result<Self, ValueError>)
        ensures
            result == (LayeredLightTarget {
                on,
                brightness,
                color_temperature_kelvin,
                color,
                transition_ms,
            }).checked(),
    {
        if let Some(value) = brightness {
            if !value.is_finite() {
                return Err(ValueError::NonFinite);
            }
        }
        if let Some(value) = color_temperature_kelvin {
            if !value.is_finite() {
                return Err(ValueError::NonFinite);
            }
        }
        Ok(
            LayeredLightTarget { on, brightness, color_temperature_kelvin, color, transition_ms },
        )
    }

    pub fn brightness(self) -> (value: Option<Double>)
        ensures
            value == self.brightness,
    {
        self.brightness
    }

    pub fn color_temperature_kelvin(self) -> (value: Option<Double>)
        ensures
            value == self.color_temperature_kelvin,
    {
        self.color_temperature_kelvin
    }

    pub fn finalize(self, color_temperature_range: KelvinRange) -> (result: Result<
        LightTarget,
        ValueError,
    >)
        ensures
            result == self.finalized(color_temperature_range),
    {
        let brightness = match self.brightness {
            None => None,
            Some(value) => match Brightness::clamped(value) {
                Ok(brightness) => Some(brightness),
                Err(error) => return Err(error),
            },
        };
        let color_temperature = match (self.color, self.color_temperature_kelvin) {
            (None, Some(value)) => {
                let bounded = value.clamp(
                    color_temperature_range.min.value,
                    color_temperature_range.max.value,
                );
                match Kelvin::new(bounded) {
                    Ok(kelvin) => Some(kelvin),
                    Err(error) => return Err(error),
                }
            },
            _ => None,
        };
        Ok(
            LightTarget {
                on: self.on,
                brightness,
                color_temperature,
                color: self.color,
                transition_ms: self.transition_ms,
            },
        )
    }

    /// Finite layers always have a final target within valid bounds.
    pub proof fn finite_layers_finalize(self, range: KelvinRange)
        requires
            self.wf(),
            range.wf(),
        ensures
            self.finalized(range) is Ok,
            self.finalized(range)->Ok_0.brightness matches Some(brightness) ==> brightness.wf(),
            self.finalized(range)->Ok_0.color_temperature matches Some(kelvin) ==> kelvin.wf()
                && range.min.value.at_most(kelvin.value) && kelvin.value.at_most(range.max.value),
            self.color is Some ==> self.finalized(range)->Ok_0.color_temperature is None,
    {
        if let Some(value) = self.color_temperature_kelvin {
            Kelvin::between_is_valid(range.min, range.max, range.bounded(value));
        }
    }
}

impl Kelvin {
    /// Whatever lies between two valid colour temperatures is valid.
    pub proof fn between_is_valid(low: Kelvin, high: Kelvin, value: Double)
        requires
            low.wf(),
            high.wf(),
            value.finite(),
            low.value.at_most(value),
            value.at_most(high.value),
        ensures
            Kelvin::checked(value) is Ok,
    {
        Double::quotient_decreases(Double { bits: MIRED_SCALE }, low.value, value);
    }
}

/// What one device should show, limited to what it can control.
#[derive(Debug, Clone, Copy, PartialEq)]
pub struct DeviceTarget {
    pub on: Option<bool>,
    pub brightness: Option<Brightness>,
    pub color_temperature: Option<Kelvin>,
    pub color: Option<Color>,
    pub transition_ms: Option<u64>,
}

impl DeviceTarget {
    /// Numeric equality, field by field.
    pub open spec fn same(self, other: DeviceTarget) -> bool {
        &&& self.on == other.on
        &&& same_brightness(self.brightness, other.brightness)
        &&& same_kelvin(self.color_temperature, other.color_temperature)
        &&& same_color(self.color, other.color)
        &&& self.transition_ms == other.transition_ms
    }

    pub fn equals(&self, other: &DeviceTarget) -> (result: bool)
        ensures
            result == self.same(*other),
    {
        self.on == other.on && brightness_equals(self.brightness, other.brightness)
            && kelvin_equals(self.color_temperature, other.color_temperature) && color_equals(
            self.color,
            other.color,
        ) && self.transition_ms == other.transition_ms
    }
}

/// What a device can do.
#[derive(Debug, Clone, Copy, PartialEq)]
pub struct Capabilities {
    pub on_off: bool,
    pub dimming: bool,
    pub color_temperature: Option<KelvinRange>,
    pub color_xy: bool,
    pub color_hs: bool,
    pub input: bool,
    pub occupancy: bool,
    pub temperature: bool,
    pub power_metering: bool,
}

impl Capabilities {
    pub open spec fn shows(self, color: Color) -> bool {
        match color {
            Color::Xy { .. } => self.color_xy,
            Color::Hs { .. } => self.color_hs,
        }
    }

    /// The part of `target` that a device with these capabilities can follow.
    pub open spec fn degraded(self, target: LightTarget) -> DeviceTarget {
        let brightness = if self.dimming {
            target.brightness
        } else {
            None
        };
        let color = match target.color {
            Some(color) => if self.shows(color) {
                Some(color)
            } else {
                None
            },
            None => None,
        };
        let color_temperature = match (color, self.color_temperature, target.color_temperature) {
            (None, Some(range), Some(kelvin)) => Some(
                Kelvin { value: range.bounded(kelvin.value) },
            ),
            _ => None,
        };
        DeviceTarget {
            on: if self.on_off {
                Some(target.on)
            } else {
                None
            },
            brightness,
            color_temperature,
            color,
            transition_ms: if brightness is Some || color_temperature is Some || color is Some {
                target.transition_ms
            } else {
                None
            },
        }
    }

    pub fn degrade(self, target: &LightTarget) -> (result: DeviceTarget)
        ensures
            result == self.degraded(*target),
    {
        let on = if self.on_off {
            Some(target.on)
        } else {
            None
        };
        let brightness = if self.dimming {
            target.brightness
        } else {
            None
        };
        let color = match target.color {
            Some(color) => {
                let shown = match color {
                    Color::Xy { x: _, y: _ } => self.color_xy,
                    Color::Hs { hue: _, saturation: _ } => self.color_hs,
                };
                if shown {
                    Some(color)
                } else {
                    None
                }
            },
            None => None,
        };
        let color_temperature = match (color, self.color_temperature, target.color_temperature) {
            (None, Some(range), Some(kelvin)) => Some(range.clamp(kelvin)),
            _ => None,
        };
        let transition_ms = if brightness.is_some() || color_temperature.is_some()
            || color.is_some() {
            target.transition_ms
        } else {
            None
        };
        DeviceTarget { on, brightness, color_temperature, color, transition_ms }
    }
}

} // verus!
