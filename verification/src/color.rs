//! When two reported colours count as the same.
use crate::amount::{eps, lemma_powers, power, size_of, tiny};
use crate::double::Double;
use crate::natural;
use crate::reconcile::ReconcileError;
use crate::value::Color;
use vstd::arithmetic::power2::*;
use vstd::prelude::*;

verus! {

/// Bits of `1.0`.
pub const ONE: u64 = 0x3ff0_0000_0000_0000;

/// Bits of `2.0`.
pub const TWO: u64 = 0x4000_0000_0000_0000;

/// Bits of `3.0`.
pub const THREE: u64 = 0x4008_0000_0000_0000;

/// Bits of `4.0`.
pub const FOUR: u64 = 0x4010_0000_0000_0000;

/// Bits of `5.0`.
pub const FIVE: u64 = 0x4014_0000_0000_0000;

/// Bits of `1e-6`.
pub const SMALLEST_AREA: u64 = 0x3eb0_c6f7_a0b5_ed8d;

/// Bits of `0.03`.
pub const DEFAULT_XY_TOLERANCE: u64 = 0x3f9e_b851_eb85_1eb8;

/// Bits of `0.02`.
pub const DEFAULT_ACHROMATIC_THRESHOLD: u64 = 0x3f94_7ae1_47ae_147b;

/// Bits of `0.01`.
pub const HUNDREDTH: u64 = 0x3f84_7ae1_47ae_147b;

/// Bits of `0.5`.
pub const HALF: u64 = 0x3fe0_0000_0000_0000;

/// Bits of `60.0`.
pub const SECTOR: u64 = 0x404e_0000_0000_0000;

/// Bits of `360.0`.
pub const TURN: u64 = 0x4076_8000_0000_0000;

/// Bits of `5.999999999`.
pub const LAST_SECTOR: u64 = 0x4017_ffff_ffee_d1f4;

/// Bits of `0.04045`.
pub const LINEAR_LIMIT: u64 = 0x3fa4_b5dc_c63f_1412;

/// Bits of `12.92`.
pub const LINEAR_SLOPE: u64 = 0x4029_d70a_3d70_a3d7;

/// Bits of `0.055`.
pub const GAMMA_OFFSET: u64 = 0x3fac_28f5_c28f_5c29;

/// Bits of `1.055`.
pub const GAMMA_SCALE: u64 = 0x3ff0_e147_ae14_7ae1;

/// Bits of two to the 56th.
pub const POWER_INPUT_SCALE: u64 = 0x4370_0000_0000_0000;

/// Bits of two to the 61st.
pub const POWER_OUTPUT_SCALE: u64 = 0x43c0_0000_0000_0000;

/// A point of the chromaticity diagram.
pub type Point = (Double, Double);

pub open spec fn minus_points(left: Point, right: Point) -> Point {
    (left.0.difference(right.0), left.1.difference(right.1))
}

fn subtract(left: Point, right: Point) -> (result: Point)
    ensures
        result == minus_points(left, right),
{
    (left.0.minus(right.0), left.1.minus(right.1))
}

pub open spec fn inner(left: Point, right: Point) -> Double {
    left.0.product(right.0).sum(left.1.product(right.1))
}

fn dot(left: Point, right: Point) -> (result: Double)
    ensures
        result == inner(left, right),
{
    left.0.times(right.0).plus(left.1.times(right.1))
}

pub open spec fn outer(left: Point, right: Point) -> Double {
    left.0.product(right.1).difference(left.1.product(right.0))
}

fn cross(left: Point, right: Point) -> (result: Double)
    ensures
        result == outer(left, right),
{
    left.0.times(right.1).minus(left.1.times(right.0))
}

pub open spec fn squared(left: Point, right: Point) -> Double {
    inner(minus_points(left, right), minus_points(left, right))
}

fn squared_distance(left: Point, right: Point) -> (result: Double)
    ensures
        result == squared(left, right),
{
    let delta = subtract(left, right);
    dot(delta, delta)
}

/// The triangle of colours that a lamp can show.
#[derive(Debug, Clone, Copy, PartialEq)]
pub struct ColorGamut {
    pub red: Point,
    pub green: Point,
    pub blue: Point,
}

/// A point of the chromaticity diagram has coordinates of at most one, and so
/// has their sum.
pub open spec fn on_diagram(point: Point) -> bool {
    &&& point.0.finite()
    &&& point.1.finite()
    &&& (Double { bits: 0 }).at_most(point.0)
    &&& point.0.at_most(Double { bits: ONE })
    &&& (Double { bits: 0 }).at_most(point.1)
    &&& point.1.at_most(Double { bits: ONE })
    &&& !(Double { bits: ONE }).less(point.0.sum(point.1))
}

fn is_on_diagram(point: Point) -> (result: bool)
    ensures
        result == on_diagram(point),
{
    let zero = Double::from_bits(0);
    let one = Double::from_bits(ONE);
    point.0.is_finite() && point.1.is_finite() && zero.le(point.0) && point.0.le(one) && zero.le(
        point.1,
    ) && point.1.le(one) && !one.lt(point.0.plus(point.1))
}

impl ColorGamut {
    pub open spec fn twice_area(self) -> Double {
        outer(
            minus_points(self.green, self.red),
            minus_points(self.blue, self.red),
        ).magnitude()
    }

    /// The corners lie on the diagram and span a triangle.
    pub open spec fn wf(self) -> bool {
        &&& on_diagram(self.red)
        &&& on_diagram(self.green)
        &&& on_diagram(self.blue)
        &&& !self.twice_area().at_most(Double { bits: SMALLEST_AREA })
    }

    pub fn new(red: Point, green: Point, blue: Point) -> (result: Result<Self, ReconcileError>)
        ensures
            result == if (ColorGamut { red, green, blue }).wf() {
                Ok::<ColorGamut, ReconcileError>(ColorGamut { red, green, blue })
            } else {
                Err(ReconcileError::InvalidColorGamut)
            },
    {
        if !is_on_diagram(red) || !is_on_diagram(green) || !is_on_diagram(blue) {
            return Err(ReconcileError::InvalidColorGamut);
        }
        let twice_area = cross(subtract(green, red), subtract(blue, red)).abs();
        if twice_area.le(Double::from_bits(SMALLEST_AREA)) {
            return Err(ReconcileError::InvalidColorGamut);
        }
        Ok(ColorGamut { red, green, blue })
    }

    /// Which side of each edge `point` lies on.
    pub open spec fn sides(self, point: Point) -> (Double, Double, Double) {
        (
            outer(minus_points(self.green, self.red), minus_points(point, self.red)),
            outer(minus_points(self.blue, self.green), minus_points(point, self.green)),
            outer(minus_points(self.red, self.blue), minus_points(point, self.blue)),
        )
    }

    /// `point` lies on one side of all edges.
    pub open spec fn holds(self, point: Point) -> bool {
        let zero = Double { bits: 0 };
        let (a, b, c) = self.sides(point);
        (zero.at_most(a) && zero.at_most(b) && zero.at_most(c)) || (a.at_most(zero) && b.at_most(
            zero,
        ) && c.at_most(zero))
    }

    /// The point of the triangle that is closest to `point`.
    pub open spec fn projected(self, point: Point) -> Point {
        if self.holds(point) {
            point
        } else {
            let first = on_segment(point, self.red, self.green);
            let second = on_segment(point, self.green, self.blue);
            let third = on_segment(point, self.blue, self.red);
            let better = if squared(point, second).less(squared(point, first)) {
                second
            } else {
                first
            };
            if squared(point, third).less(squared(point, better)) {
                third
            } else {
                better
            }
        }
    }
}

/// The point of a segment that is closest to `point`.
pub open spec fn on_segment(point: Point, start: Point, end: Point) -> Point {
    let segment = minus_points(end, start);
    let position = inner(minus_points(point, start), segment).quotient(
        inner(segment, segment),
    ).limited(Double { bits: 0 }, Double { bits: ONE });
    (
        start.0.sum(segment.0.product(position)),
        start.1.sum(segment.1.product(position)),
    )
}

fn closest_point_on_segment(point: Point, start: Point, end: Point) -> (result: Point)
    ensures
        result == on_segment(point, start, end),
{
    let segment = subtract(end, start);
    let position = dot(subtract(point, start), segment).over(dot(segment, segment)).clamp(
        Double::from_bits(0),
        Double::from_bits(ONE),
    );
    (start.0.plus(segment.0.times(position)), start.1.plus(segment.1.times(position)))
}

fn project_to_gamut(point: Point, gamut: ColorGamut) -> (result: Point)
    ensures
        result == gamut.projected(point),
{
    let zero = Double::from_bits(0);
    let a = cross(subtract(gamut.green, gamut.red), subtract(point, gamut.red));
    let b = cross(subtract(gamut.blue, gamut.green), subtract(point, gamut.green));
    let c = cross(subtract(gamut.red, gamut.blue), subtract(point, gamut.blue));
    if zero.le(a) && zero.le(b) && zero.le(c) {
        return point;
    }
    if a.le(zero) && b.le(zero) && c.le(zero) {
        return point;
    }
    let first = closest_point_on_segment(point, gamut.red, gamut.green);
    let second = closest_point_on_segment(point, gamut.green, gamut.blue);
    let third = closest_point_on_segment(point, gamut.blue, gamut.red);
    let mut best = first;
    if squared_distance(point, second).lt(squared_distance(point, best)) {
        best = second;
    }
    if squared_distance(point, third).lt(squared_distance(point, best)) {
        best = third;
    }
    best
}

/// The length of a step is at most `limit`: measured in limits, its sides squared sum
/// up to at most one. So neither tiny nor large steps are lost in their squares.
pub open spec fn within_reach(step: Point, limit: Double) -> bool {
    let scaled = (step.0.quotient(limit), step.1.quotient(limit));
    inner(scaled, scaled).at_most(Double { bits: ONE })
}

fn is_within_reach(step: Point, limit: Double) -> (result: bool)
    ensures
        result == within_reach(step, limit),
{
    let scaled = (step.0.over(limit), step.1.over(limit));
    dot(scaled, scaled).le(Double::from_bits(ONE))
}

/// How closely an observed colour has to match.
#[derive(Debug, Clone, Copy, PartialEq)]
pub struct ColorComparisonPolicy {
    pub gamut: Option<ColorGamut>,
    pub xy_tolerance: Double,
    pub achromatic_saturation_threshold: Double,
}

impl ColorComparisonPolicy {
    pub open spec fn valid(self) -> bool {
        let zero = Double { bits: 0 };
        let one = Double { bits: ONE };
        &&& self.xy_tolerance.finite()
        &&& !self.xy_tolerance.at_most(zero)
        &&& !one.less(self.xy_tolerance)
        &&& self.achromatic_saturation_threshold.finite()
        &&& zero.at_most(self.achromatic_saturation_threshold)
        &&& self.achromatic_saturation_threshold.at_most(one)
    }

    pub fn new(
        gamut: Option<ColorGamut>,
        xy_tolerance: Double,
        achromatic_saturation_threshold: Double,
    ) -> (result: Result<Self, ReconcileError>)
        ensures
            result == {
                let policy = ColorComparisonPolicy {
                    gamut,
                    xy_tolerance,
                    achromatic_saturation_threshold,
                };
                if policy.valid() {
                    Ok::<ColorComparisonPolicy, ReconcileError>(policy)
                } else {
                    Err(ReconcileError::InvalidColorComparisonPolicy)
                }
            },
    {
        let zero = Double::from_bits(0);
        let one = Double::from_bits(ONE);
        if !xy_tolerance.is_finite() || xy_tolerance.le(zero) || one.lt(xy_tolerance) {
            return Err(ReconcileError::InvalidColorComparisonPolicy);
        }
        if !achromatic_saturation_threshold.is_finite() || !zero.le(achromatic_saturation_threshold)
            || !achromatic_saturation_threshold.le(one) {
            return Err(ReconcileError::InvalidColorComparisonPolicy);
        }
        Ok(ColorComparisonPolicy { gamut, xy_tolerance, achromatic_saturation_threshold })
    }

    pub open spec fn standard() -> ColorComparisonPolicy {
        ColorComparisonPolicy {
            gamut: None,
            xy_tolerance: Double { bits: DEFAULT_XY_TOLERANCE },
            achromatic_saturation_threshold: Double { bits: DEFAULT_ACHROMATIC_THRESHOLD },
        }
    }
}

impl Default for ColorComparisonPolicy {
    fn default() -> (result: Self)
        ensures
            result == ColorComparisonPolicy::standard(),
    {
        ColorComparisonPolicy {
            gamut: None,
            xy_tolerance: Double::from_bits(DEFAULT_XY_TOLERANCE),
            achromatic_saturation_threshold: Double::from_bits(DEFAULT_ACHROMATIC_THRESHOLD),
        }
    }
}

pub open spec fn smaller(a: Double, b: Double) -> Double {
    if b.less(a) {
        b
    } else {
        a
    }
}

pub open spec fn greater(a: Double, b: Double) -> Double {
    if a.less(b) {
        b
    } else {
        a
    }
}

/// `channel` to the power `2.4`, to 61 binary places.
pub open spec fn gamma(channel: Double) -> Double {
    Double::of_nat(
        natural::power_code(channel.product(Double { bits: POWER_INPUT_SCALE }).rounded()) as nat,
    ).quotient(Double { bits: POWER_OUTPUT_SCALE })
}

/// The light that an sRGB channel stands for.
pub open spec fn linear(channel: Double) -> Double {
    if channel.at_most(Double { bits: LINEAR_LIMIT }) {
        channel.quotient(Double { bits: LINEAR_SLOPE })
    } else {
        gamma(
            channel.sum(Double { bits: GAMMA_OFFSET }).quotient(Double { bits: GAMMA_SCALE }),
        )
    }
}

fn linear_light(channel: Double) -> (result: Double)
    ensures
        result == linear(channel),
{
    if channel.le(Double::from_bits(LINEAR_LIMIT)) {
        channel.over(Double::from_bits(LINEAR_SLOPE))
    } else {
        let curved = channel.plus(Double::from_bits(GAMMA_OFFSET)).over(
            Double::from_bits(GAMMA_SCALE),
        );
        let code: u64 = natural::find_power_code(
            curved.times(Double::from_bits(POWER_INPUT_SCALE)).round_to_u64(),
        );
        Double::from_u64(code).over(Double::from_bits(POWER_OUTPUT_SCALE))
    }
}

/// Position on the colour circle in sixths, from zero to just below six.
pub open spec fn sector_of(hue: Double) -> Double {
    let wrapped = if hue.less(Double { bits: TURN }) {
        hue
    } else {
        hue.difference(Double { bits: TURN })
    };
    smaller(wrapped.quotient(Double { bits: SECTOR }), Double { bits: LAST_SECTOR })
}

/// The three channels of a full-value colour before its offset to white.
pub open spec fn channels_of(hue: Double, saturation: Double) -> (Double, Double, Double) {
    let zero = Double { bits: 0 };
    let one = Double { bits: ONE };
    let two = Double { bits: TWO };
    let four = Double { bits: FOUR };
    let sector = sector_of(hue);
    let within = if sector.less(two) {
        sector
    } else if sector.less(four) {
        sector.difference(two)
    } else {
        sector.difference(four)
    };
    let middle = saturation.product(one.difference(within.difference(one).magnitude()));
    if sector.less(one) {
        (saturation, middle, zero)
    } else if sector.less(two) {
        (middle, saturation, zero)
    } else if sector.less(Double { bits: THREE }) {
        (zero, saturation, middle)
    } else if sector.less(four) {
        (zero, middle, saturation)
    } else if sector.less(Double { bits: FIVE }) {
        (middle, zero, saturation)
    } else {
        (saturation, zero, middle)
    }
}

fn channels(hue: Double, saturation: Double) -> (result: (Double, Double, Double))
    ensures
        result == channels_of(hue, saturation),
{
    let zero = Double::from_bits(0);
    let one = Double::from_bits(ONE);
    let two = Double::from_bits(TWO);
    let four = Double::from_bits(FOUR);
    let turn = Double::from_bits(TURN);
    let last = Double::from_bits(LAST_SECTOR);
    let wrapped = if hue.lt(turn) {
        hue
    } else {
        hue.minus(turn)
    };
    let sixths = wrapped.over(Double::from_bits(SECTOR));
    let sector = if last.lt(sixths) {
        last
    } else {
        sixths
    };
    let within = if sector.lt(two) {
        sector
    } else if sector.lt(four) {
        sector.minus(two)
    } else {
        sector.minus(four)
    };
    let middle = saturation.times(one.minus(within.minus(one).abs()));
    if sector.lt(one) {
        (saturation, middle, zero)
    } else if sector.lt(two) {
        (middle, saturation, zero)
    } else if sector.lt(Double::from_bits(THREE)) {
        (zero, saturation, middle)
    } else if sector.lt(four) {
        (zero, middle, saturation)
    } else if sector.lt(Double::from_bits(FIVE)) {
        (middle, zero, saturation)
    } else {
        (saturation, zero, middle)
    }
}

/// A weighted sum of three channels, by the bits of the weights.
pub open spec fn weighted(
    light: (Double, Double, Double),
    red: u64,
    green: u64,
    blue: u64,
) -> Double {
    (Double { bits: red }).product(light.0).sum((Double { bits: green }).product(light.1)).sum(
        (Double { bits: blue }).product(light.2),
    )
}

fn weigh(light: (Double, Double, Double), red: u64, green: u64, blue: u64) -> (result: Double)
    ensures
        result == weighted(light, red, green, blue),
{
    Double::from_bits(red).times(light.0).plus(Double::from_bits(green).times(light.1)).plus(
        Double::from_bits(blue).times(light.2),
    )
}

/// Chromaticity of light given by its linear channels, through the sRGB
/// primaries and D65 white.
pub open spec fn chromaticity(light: (Double, Double, Double)) -> Point {
    let x = weighted(light, 0x3fda_65af_8741_a841, 0x3fd6_e286_ddd5_32cd, 0x3fc7_1893_74bc_6a7f);
    let y = weighted(light, 0x3fcb_38dd_971f_6bd6, 0x3fe6_e286_ddd5_32cd, 0x3fb2_7a0f_9096_bb99);
    let z = weighted(light, 0x3f93_cc44_10d1_089c, 0x3fbe_835d_edf1_e083, 0x3fee_68e4_24d8_269d);
    let total = x.sum(y).sum(z);
    (x.quotient(total), y.quotient(total))
}

/// Chromaticity of a full-value colour.
pub open spec fn xy_of_hs(hue: Double, saturation: Double) -> Point {
    let (red, green, blue) = channels_of(hue, saturation);
    let offset = (Double { bits: ONE }).difference(saturation);
    chromaticity((linear(red.sum(offset)), linear(green.sum(offset)), linear(blue.sum(offset))))
}

/// Converts normalized HS through a canonical full-value sRGB/D65 color.
/// Zigbee lamps have model-specific gamuts, so cross-mode observations use a
/// deliberately modest chromaticity tolerance instead of pretending their
/// reported XY values are bit-exact sRGB coordinates.
pub fn hs_to_srgb_xy(hue: Double, saturation: Double) -> (result: Point)
    ensures
        result == xy_of_hs(hue, saturation),
{
    let (red, green, blue) = channels(hue, saturation);
    let offset = Double::from_bits(ONE).minus(saturation);
    let light = (
        linear_light(red.plus(offset)),
        linear_light(green.plus(offset)),
        linear_light(blue.plus(offset)),
    );
    let x = weigh(light, 0x3fda_65af_8741_a841, 0x3fd6_e286_ddd5_32cd, 0x3fc7_1893_74bc_6a7f);
    let y = weigh(light, 0x3fcb_38dd_971f_6bd6, 0x3fe6_e286_ddd5_32cd, 0x3fb2_7a0f_9096_bb99);
    let z = weigh(light, 0x3f93_cc44_10d1_089c, 0x3fbe_835d_edf1_e083, 0x3fee_68e4_24d8_269d);
    let total = x.plus(y).plus(z);
    (x.over(total), y.over(total))
}

impl ColorComparisonPolicy {
    /// Where a colour lies once it is shown by the lamp.
    pub open spec fn shown(self, color: Color) -> Point {
        let xy = match color {
            Color::Hs { hue, saturation } => xy_of_hs(hue, saturation),
            Color::Xy { x, y } => (x, y),
        };
        match self.gamut {
            Some(gamut) => gamut.projected(xy),
            None => xy,
        }
    }

    fn canonical_xy(self, color: Color) -> (result: Point)
        ensures
            result == self.shown(color),
    {
        let xy = match color {
            Color::Hs { hue, saturation } => hs_to_srgb_xy(hue, saturation),
            Color::Xy { x, y } => (x, y),
        };
        match self.gamut {
            Some(gamut) => project_to_gamut(xy, gamut),
            None => xy,
        }
    }

    /// Two hues with their saturations count as the same.
    pub open spec fn same_hs(
        self,
        desired: (Double, Double),
        observed: (Double, Double),
    ) -> bool {
        let threshold = self.achromatic_saturation_threshold;
        let saturation = desired.1.difference(observed.1).magnitude();
        if desired.1.at_most(threshold) && observed.1.at_most(threshold) {
            saturation.at_most(greater(threshold, Double { bits: HUNDREDTH }))
        } else {
            let hue = desired.0.difference(observed.0).magnitude();
            smaller(hue, (Double { bits: TURN }).difference(hue)).at_most(Double { bits: HALF })
                && saturation.at_most(Double { bits: HUNDREDTH })
        }
    }

    /// `observed` counts as `desired`.
    pub open spec fn matching(self, desired: Color, observed: Color) -> bool {
        match (desired, observed) {
            (
                Color::Hs { hue: desired_hue, saturation: desired_saturation },
                Color::Hs { hue: observed_hue, saturation: observed_saturation },
            ) => self.same_hs(
                (desired_hue, desired_saturation),
                (observed_hue, observed_saturation),
            ),
            _ => within_reach(
                minus_points(self.shown(desired), self.shown(observed)),
                self.xy_tolerance,
            ),
        }
    }

    pub fn colors_in_sync(self, desired: Color, observed: Color) -> (result: bool)
        ensures
            result == self.matching(desired, observed),
    {
        let threshold = self.achromatic_saturation_threshold;
        let hundredth = Double::from_bits(HUNDREDTH);
        match (desired, observed) {
            (
                Color::Hs { hue: desired_hue, saturation: desired_saturation },
                Color::Hs { hue: observed_hue, saturation: observed_saturation },
            ) => {
                let saturation = desired_saturation.minus(observed_saturation).abs();
                if desired_saturation.le(threshold) && observed_saturation.le(threshold) {
                    let limit = if threshold.lt(hundredth) {
                        hundredth
                    } else {
                        threshold
                    };
                    saturation.le(limit)
                } else {
                    let hue = desired_hue.minus(observed_hue).abs();
                    let other = Double::from_bits(TURN).minus(hue);
                    let difference = if other.lt(hue) {
                        other
                    } else {
                        hue
                    };
                    difference.le(Double::from_bits(HALF)) && saturation.le(hundredth)
                }
            },
            _ => {
                let desired_xy = self.canonical_xy(desired);
                let observed_xy = self.canonical_xy(observed);
                is_within_reach(subtract(desired_xy, observed_xy), self.xy_tolerance)
            },
        }
    }
}

/// The constants of the comparison.
proof fn lemma_constants()
    ensures
        (Double { bits: TURN }).finite(),
        (Double { bits: TURN }).amount() == 360real,
        (Double { bits: HALF }).finite(),
        (Double { bits: HALF }).amount() == 1real / 2real,
        (Double { bits: HUNDREDTH }).finite(),
        size_of((Double { bits: HUNDREDTH }).amount() - 1real / 100real) <= eps(),
        (Double { bits: ONE }).finite(),
        (Double { bits: ONE }).amount() == 1real,
        (Double { bits: 0 }).finite(),
        (Double { bits: 0 }).amount() == 0real,
{
    lemma2_to64();
    lemma2_to64_rest();
    lemma_powers();
    lemma_pow2_adds(59, 1);
    assert(power(44) == 17_592_186_044_416real);
    assert(power(52) == 4_503_599_627_370_496real);
    Double::exact_amount(Double { bits: TURN }, 1031, 360real);
    Double::exact_amount(Double { bits: HALF }, 1022, 1real / 2real);
    Double::exact_amount(Double { bits: ONE }, 1023, 1real);
    Double::known_amount(Double { bits: HUNDREDTH }, 1016);
    Double::amounts(Double { bits: 0 });
    let hundredth = Double { bits: HUNDREDTH };
    let y = hundredth.amount();
    assert(hundredth.code() % 0x10_0000_0000_0000 == 1_261_007_895_663_739);
    assert(power(59) == 576_460_752_303_423_488real);
    assert(y * 576_460_752_303_423_488real == 5_764_607_523_034_235real);
    let e = eps();
    Double::amounts(Double { bits: 0 });
    assert(eps() * 9_007_199_254_740_992real == 1real) by (nonlinear_arith)
        requires
            eps() == 1real / 9_007_199_254_740_992real,
    ;
    assert(y - 1real / 100real <= e && 1real / 100real - y <= e) by (nonlinear_arith)
        requires
            y * 576_460_752_303_423_488real == 5_764_607_523_034_235real,
            e * 9_007_199_254_740_992real == 1real,
    ;
}

/// A billionth: more than the roundings of a comparison can be off.
pub open spec fn slack() -> real {
    1real / 1_000_000_000real
}

/// The distance of two hues around the colour circle, in degrees.
pub open spec fn hue_distance(a: real, b: real) -> real {
    let apart = size_of(a - b);
    if apart <= 180real {
        apart
    } else {
        360real - apart
    }
}

impl ColorComparisonPolicy {
    /// Where one of two colours is saturated enough to have a hue, they are in sync if
    /// their hues lie within half a degree of each other around the colour circle and
    /// their saturations within a hundredth, and only then. A billionth either way is
    /// left to rounding.
    pub proof fn hues_in_sync_are_close(self, desired: Color, observed: Color)
        requires
            self.valid(),
            desired.wf(),
            observed.wf(),
            desired is Hs,
            observed is Hs,
            self.achromatic_saturation_threshold.amount() < desired->saturation.amount()
                || self.achromatic_saturation_threshold.amount() < observed->saturation.amount(),
        ensures
            ({
                let turned = hue_distance(desired->hue.amount(), observed->hue.amount());
                let paler = size_of(desired->saturation.amount() - observed->saturation.amount());
                &&& self.matching(desired, observed) ==> turned <= 1real / 2real + slack() && paler
                    <= 1real / 100real + slack()
                &&& turned <= 1real / 2real - slack() && paler <= 1real / 100real - slack()
                    ==> self.matching(desired, observed)
            }),
    {
        let (h1, s1) = (desired->hue, desired->saturation);
        let (h2, s2) = (observed->hue, observed->saturation);
        let turn = Double { bits: TURN };
        lemma_constants();
        lemma_powers();
        lemma_hue_and_saturation(h1, s1);
        lemma_hue_and_saturation(h2, s2);
        Double::amounts_keep_order(s1, self.achromatic_saturation_threshold);
        Double::amounts_keep_order(s2, self.achromatic_saturation_threshold);
        lemma_apart(h1, h2, 360real);
        lemma_apart(s1, s2, 1real);
        let hue = h1.difference(h2).magnitude();
        let saturation = s1.difference(s2).magnitude();
        lemma_apart(turn, hue, 361real);
        let other = turn.difference(hue);
        Double::amounts_keep_order(other, hue);
        Double::amounts_keep_order(hue, Double { bits: HALF });
        Double::amounts_keep_order(other, Double { bits: HALF });
        Double::amounts_keep_order(saturation, Double { bits: HUNDREDTH });
    }

    /// Two colours too pale to have a hue are in sync if their saturations lie within
    /// the larger of a hundredth and the threshold, and only then, whatever their hues.
    pub proof fn pale_colors_compare_by_saturation(self, desired: Color, observed: Color)
        requires
            self.valid(),
            desired.wf(),
            observed.wf(),
            desired is Hs,
            observed is Hs,
            desired->saturation.amount() <= self.achromatic_saturation_threshold.amount(),
            observed->saturation.amount() <= self.achromatic_saturation_threshold.amount(),
        ensures
            ({
                let threshold = self.achromatic_saturation_threshold.amount();
                let limit = if threshold < 1real / 100real {
                    1real / 100real
                } else {
                    threshold
                };
                let paler = size_of(desired->saturation.amount() - observed->saturation.amount());
                &&& self.matching(desired, observed) ==> paler <= limit + slack()
                &&& paler <= limit - slack() ==> self.matching(desired, observed)
            }),
    {
        let (h1, s1) = (desired->hue, desired->saturation);
        let (h2, s2) = (observed->hue, observed->saturation);
        let threshold = self.achromatic_saturation_threshold;
        let hundredth = Double { bits: HUNDREDTH };
        lemma_constants();
        lemma_powers();
        lemma_hue_and_saturation(h1, s1);
        lemma_hue_and_saturation(h2, s2);
        Double::amounts_keep_order(s1, threshold);
        Double::amounts_keep_order(s2, threshold);
        Double::amounts_keep_order(threshold, hundredth);
        lemma_apart(s1, s2, 1real);
        let saturation = s1.difference(s2).magnitude();
        Double::amounts_keep_order(saturation, hundredth);
        Double::amounts_keep_order(saturation, threshold);
    }
}

/// Ranges of a valid hue and saturation.
proof fn lemma_hue_and_saturation(hue: Double, saturation: Double)
    requires
        (Color::Hs { hue, saturation }).wf(),
    ensures
        hue.finite(),
        saturation.finite(),
        0real <= hue.amount() <= 360real,
        0real <= saturation.amount() <= 1real,
{
    lemma_constants();
    assert(crate::value::FULL_TURN == TURN);
    Double::amounts_keep_order(Double { bits: 0 }, hue);
    Double::amounts_keep_order(hue, Double { bits: TURN });
    Double::amounts_keep_order(Double { bits: 0 }, saturation);
    Double::amounts_keep_order(saturation, Double { bits: ONE });
}

/// How far two numbers are apart, as it is computed.
proof fn lemma_apart(a: Double, b: Double, most: real)
    requires
        a.finite(),
        b.finite(),
        size_of(a.amount() - b.amount()) <= most,
        0real <= most <= 1000real,
    ensures
        a.difference(b).finite(),
        a.difference(b).magnitude().finite(),
        size_of(a.difference(b).amount() - (a.amount() - b.amount())) <= slack() / 4real,
        size_of(a.difference(b).magnitude().amount() - size_of(a.amount() - b.amount())) <= slack()
            / 4real,
{
    lemma_powers();
    lemma_pow2_strictly_increases(900, 1000);
    Double::difference_amount(a, b);
    Double::magnitude_amount(a.difference(b));
    let x = size_of(a.amount() - b.amount());
    let e = eps();
    let t = tiny();
    assert(e * 9_007_199_254_740_992real == 1real) by (nonlinear_arith)
        requires
            e == 1real / 9_007_199_254_740_992real,
    ;
    assert(x * e + t <= slack() / 4real) by (nonlinear_arith)
        requires
            0real <= x <= 1000real,
            e * 9_007_199_254_740_992real == 1real,
            e > 0real,
            t <= e * e,
            slack() == 1real / 1_000_000_000real,
    ;
}

} // verus!
