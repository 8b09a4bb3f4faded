//! Circadian curves: cyclic monotone interpolation through daily anchors.
use crate::double::Double;
use crate::value::{Brightness, Kelvin, KelvinRange, ValueError};
use vstd::arithmetic::power2::*;
use vstd::prelude::*;

verus! {

pub const SECONDS_PER_DAY: u32 = 86_400;

/// Bits of `2.0`.
pub const TWO: u64 = 0x4000_0000_0000_0000;

/// Bits of `3.0`.
pub const THREE: u64 = 0x4008_0000_0000_0000;

/// Bits of `-2.0`.
pub const MINUS_TWO: u64 = 0xc000_0000_0000_0000;

/// Bits of `1.0`.
pub const ONE: u64 = 0x3ff0_0000_0000_0000;

#[derive(Debug, Clone, Copy, PartialEq)]
pub enum CurveError {
    InvalidTime,
    TooFewAnchors,
    DuplicateAnchorTime(TimeOfDay),
    InvalidValue(ValueError),
}

/// Seconds since local midnight.
#[derive(Debug, Clone, Copy, PartialEq, Eq, Ord)]
pub struct TimeOfDay {
    pub seconds: u32,
}

impl PartialOrd for TimeOfDay {
    fn partial_cmp(&self, other: &TimeOfDay) -> (result: Option<std::cmp::Ordering>) {
        if self.seconds < other.seconds {
            Some(std::cmp::Ordering::Less)
        } else if self.seconds == other.seconds {
            Some(std::cmp::Ordering::Equal)
        } else {
            Some(std::cmp::Ordering::Greater)
        }
    }
}

impl vstd::std_specs::cmp::PartialOrdSpecImpl for TimeOfDay {
    open spec fn obeys_partial_cmp_spec() -> bool {
        true
    }

    /// Times are ordered as their seconds are.
    open spec fn partial_cmp_spec(&self, other: &TimeOfDay) -> Option<std::cmp::Ordering> {
        if self.seconds < other.seconds {
            Some(std::cmp::Ordering::Less)
        } else if self.seconds == other.seconds {
            Some(std::cmp::Ordering::Equal)
        } else {
            Some(std::cmp::Ordering::Greater)
        }
    }
}

impl TimeOfDay {
    pub open spec fn wf(self) -> bool {
        self.seconds < SECONDS_PER_DAY
    }

    pub fn from_seconds(seconds: u32) -> (result: Result<Self, CurveError>)
        ensures
            result == if seconds < SECONDS_PER_DAY {
                Ok::<TimeOfDay, CurveError>(TimeOfDay { seconds })
            } else {
                Err(CurveError::InvalidTime)
            },
            result matches Ok(time) ==> time.wf(),
    {
        if seconds >= SECONDS_PER_DAY {
            return Err(CurveError::InvalidTime);
        }
        Ok(TimeOfDay { seconds })
    }

    pub fn from_hms(hour: u8, minute: u8, second: u8) -> (result: Result<Self, CurveError>)
        ensures
            result == if hour < 24 && minute < 60 && second < 60 {
                Ok::<TimeOfDay, CurveError>(
                    TimeOfDay { seconds: (hour * 3600 + minute * 60 + second) as u32 },
                )
            } else {
                Err(CurveError::InvalidTime)
            },
            result matches Ok(time) ==> time.wf(),
    {
        if hour >= 24 || minute >= 60 || second >= 60 {
            return Err(CurveError::InvalidTime);
        }
        TimeOfDay::from_seconds(hour as u32 * 3_600 + minute as u32 * 60 + second as u32)
    }

    pub fn seconds(self) -> (seconds: u32)
        ensures
            seconds == self.seconds,
    {
        self.seconds
    }
}

/// A point that a curve passes through every day.
#[derive(Debug, Clone, Copy, PartialEq)]
pub struct CurveAnchor {
    pub time: TimeOfDay,
    pub brightness: Brightness,
    pub color_temperature: Kelvin,
}

impl CurveAnchor {
    pub open spec fn wf(self) -> bool {
        self.time.wf() && self.brightness.wf() && self.color_temperature.wf()
    }

    pub fn new(
        time: TimeOfDay,
        brightness: Brightness,
        color_temperature_kelvin: Double,
    ) -> (result: Result<Self, CurveError>)
        ensures
            result == match Kelvin::checked(color_temperature_kelvin) {
                Ok(color_temperature) => Ok::<CurveAnchor, CurveError>(
                    CurveAnchor { time, brightness, color_temperature },
                ),
                Err(error) => Err(CurveError::InvalidValue(error)),
            },
    {
        match Kelvin::new(color_temperature_kelvin) {
            Ok(color_temperature) => Ok(CurveAnchor { time, brightness, color_temperature }),
            Err(error) => Err(CurveError::InvalidValue(error)),
        }
    }

    pub fn time(self) -> (time: TimeOfDay)
        ensures
            time == self.time,
    {
        self.time
    }

    pub fn brightness(self) -> (brightness: Brightness)
        ensures
            brightness == self.brightness,
    {
        self.brightness
    }

    pub fn color_temperature(self) -> (kelvin: Kelvin)
        ensures
            kelvin == self.color_temperature,
    {
        self.color_temperature
    }
}

/// What a curve shows at one moment.
#[derive(Debug, Clone, Copy, PartialEq)]
pub struct CurvePoint {
    pub brightness: Brightness,
    pub color_temperature: Kelvin,
}

impl CurvePoint {
    pub fn brightness(self) -> (brightness: Brightness)
        ensures
            brightness == self.brightness,
    {
        self.brightness
    }

    pub fn color_temperature(self) -> (kelvin: Kelvin)
        ensures
            kelvin == self.color_temperature,
    {
        self.color_temperature
    }
}

/// Anchor times ascend strictly.
pub open spec fn strictly_timed(anchors: Seq<CurveAnchor>) -> bool {
    forall|i: int, j: int|
        0 <= i < j < anchors.len() ==> (#[trigger] anchors[i]).time.seconds < (
        #[trigger] anchors[j]).time.seconds
}

/// Anchor times ascend.
pub open spec fn timed(anchors: Seq<CurveAnchor>) -> bool {
    forall|i: int, j: int|
        0 <= i < j < anchors.len() ==> (#[trigger] anchors[i]).time.seconds <= (
        #[trigger] anchors[j]).time.seconds
}

/// Number of anchors at the time `seconds`.
pub open spec fn anchors_at(anchors: Seq<CurveAnchor>, seconds: u32) -> nat
    decreases anchors.len(),
{
    if anchors.len() == 0 {
        0
    } else {
        anchors_at(anchors.drop_last(), seconds) + if anchors.last().time.seconds == seconds {
            1nat
        } else {
            0
        }
    }
}

pub open spec fn brightness_values(anchors: Seq<CurveAnchor>) -> Seq<Double> {
    Seq::new(anchors.len(), |i: int| anchors[i].brightness.value)
}

pub open spec fn kelvin_values(anchors: Seq<CurveAnchor>) -> Seq<Double> {
    Seq::new(anchors.len(), |i: int| anchors[i].color_temperature.value)
}

/// Seconds from `left` forward to `right`, across midnight when needed.
pub open spec fn cyclic_seconds(left: TimeOfDay, right: TimeOfDay) -> nat {
    if right.seconds > left.seconds {
        (right.seconds - left.seconds) as nat
    } else {
        (SECONDS_PER_DAY - left.seconds + right.seconds) as nat
    }
}

pub open spec fn following(i: int, count: int) -> int {
    if i + 1 < count {
        i + 1
    } else {
        0
    }
}

pub open spec fn preceding(i: int, count: int) -> int {
    if i > 0 {
        i - 1
    } else {
        count - 1
    }
}

/// Seconds of the segment that starts at anchor `i`.
pub open spec fn width_seconds(anchors: Seq<CurveAnchor>, i: int) -> nat {
    cyclic_seconds(anchors[i].time, anchors[following(i, anchors.len() as int)].time)
}

/// Width of the segment that starts at anchor `i`.
pub open spec fn width_at(anchors: Seq<CurveAnchor>, i: int) -> Double {
    Double::of_nat(width_seconds(anchors, i))
}

/// Slope of the straight line over the segment that starts at anchor `i`.
pub open spec fn secant_at(anchors: Seq<CurveAnchor>, values: Seq<Double>, i: int) -> Double {
    values[following(i, anchors.len() as int)].difference(values[i]).quotient(width_at(anchors, i))
}

/// Weighted harmonic mean of two secants; zero at an extremum.
pub open spec fn monotone(
    previous_width: Double,
    next_width: Double,
    previous: Double,
    next: Double,
) -> Double {
    let zero = Double { bits: 0 };
    let two = Double { bits: TWO };
    if previous.same(zero) || next.same(zero) || previous.nan() || next.nan()
        || previous.negative() != next.negative() {
        zero
    } else {
        let previous_weight = two.product(next_width).sum(previous_width);
        let next_weight = next_width.sum(two.product(previous_width));
        previous_weight.sum(next_weight).quotient(
            previous_weight.quotient(previous).sum(next_weight.quotient(next)),
        )
    }
}

/// Slope of the curve at anchor `i`.
pub open spec fn slope_at(anchors: Seq<CurveAnchor>, values: Seq<Double>, i: int) -> Double {
    if anchors.len() == 2 {
        Double { bits: 0 }
    } else {
        let before = preceding(i, anchors.len() as int);
        monotone(
            width_at(anchors, before),
            width_at(anchors, i),
            secant_at(anchors, values, before),
            secant_at(anchors, values, i),
        )
    }
}

pub open spec fn slopes_of(anchors: Seq<CurveAnchor>, values: Seq<Double>) -> Seq<Double> {
    Seq::new(anchors.len(), |i: int| slope_at(anchors, values, i))
}

/// Number of anchors earlier than `seconds`.
pub open spec fn earlier(anchors: Seq<CurveAnchor>, seconds: u32) -> int
    decreases anchors.len(),
{
    if anchors.len() == 0 || anchors[0].time.seconds >= seconds {
        0
    } else {
        1 + earlier(anchors.drop_first(), seconds)
    }
}

/// Anchors on either side of a time; the same one twice at an anchor's time.
pub open spec fn neighbors(anchors: Seq<CurveAnchor>, time: TimeOfDay) -> (int, int) {
    let count = anchors.len() as int;
    let i = earlier(anchors, time.seconds);
    if i < count && anchors[i].time.seconds == time.seconds {
        (i, i)
    } else if i == 0 || i == count {
        (count - 1, 0)
    } else {
        (i - 1, i)
    }
}

/// Cubic through two values with given slopes.
pub open spec fn hermite(
    position: Double,
    width: Double,
    left: Double,
    left_slope: Double,
    right: Double,
    right_slope: Double,
) -> Double {
    let two = Double { bits: TWO };
    let three = Double { bits: THREE };
    let one = Double { bits: ONE };
    let minus_two = Double { bits: MINUS_TWO };
    let squared = position.product(position);
    let cubed = squared.product(position);
    let left_basis = two.product(cubed).difference(three.product(squared)).sum(one);
    let left_slope_basis = cubed.difference(two.product(squared)).sum(position);
    let right_basis = minus_two.product(cubed).sum(three.product(squared));
    let right_slope_basis = cubed.difference(squared);
    left_basis.product(left).sum(left_slope_basis.product(width).product(left_slope)).sum(
        right_basis.product(right),
    ).sum(right_slope_basis.product(width).product(right_slope))
}

pub open spec fn lesser(a: Double, b: Double) -> Double {
    if b.less(a) {
        b
    } else {
        a
    }
}

pub open spec fn greater(a: Double, b: Double) -> Double {
    if a.less(b) {
        b
    } else {
        a
    }
}

/// Seconds from the left neighbour to `time`.
pub open spec fn elapsed(left: TimeOfDay, time: TimeOfDay) -> nat {
    if time.seconds < left.seconds {
        (SECONDS_PER_DAY - left.seconds + time.seconds) as nat
    } else {
        (time.seconds - left.seconds) as nat
    }
}

/// Value of the curve at `time`, kept between its neighbours' values.
pub open spec fn interpolated(
    anchors: Seq<CurveAnchor>,
    values: Seq<Double>,
    slopes: Seq<Double>,
    time: TimeOfDay,
) -> Double {
    let (left, right) = neighbors(anchors, time);
    if left == right {
        values[left]
    } else {
        let width = Double::of_nat(cyclic_seconds(anchors[left].time, anchors[right].time));
        let position = Double::of_nat(elapsed(anchors[left].time, time)).quotient(width);
        let free = if anchors.len() == 2 {
            values[left].sum(position.product(values[right].difference(values[left])))
        } else {
            hermite(position, width, values[left], slopes[left], values[right], slopes[right])
        };
        free.limited(lesser(values[left], values[right]), greater(values[left], values[right]))
    }
}

/// What the curve through `anchors` shows at `time`, before device bounds.
pub open spec fn point_through(anchors: Seq<CurveAnchor>, time: TimeOfDay) -> Result<
    CurvePoint,
    CurveError,
> {
    let light = brightness_values(anchors);
    let warmth = kelvin_values(anchors);
    let brightness = Brightness::bounded(
        interpolated(anchors, light, slopes_of(anchors, light), time),
    );
    let kelvin = Kelvin::checked(interpolated(anchors, warmth, slopes_of(anchors, warmth), time));
    match (brightness, kelvin) {
        (Err(error), _) => Err(CurveError::InvalidValue(error)),
        (_, Err(error)) => Err(CurveError::InvalidValue(error)),
        (Ok(brightness), Ok(color_temperature)) => Ok(CurvePoint { brightness, color_temperature }),
    }
}

/// A daily curve through at least two anchors at different times.
#[derive(Debug, PartialEq)]
pub struct CircadianCurve {
    pub anchors: Vec<CurveAnchor>,
    pub brightness_slopes: Vec<Double>,
    pub color_temperature_slopes: Vec<Double>,
}

impl CircadianCurve {
    pub open spec fn wf(self) -> bool {
        &&& self.anchors@.len() >= 2
        &&& strictly_timed(self.anchors@)
        &&& forall|i: int| 0 <= i < self.anchors@.len() ==> (#[trigger] self.anchors@[i]).time.wf()
        &&& self.brightness_slopes@ == slopes_of(self.anchors@, brightness_values(self.anchors@))
        &&& self.color_temperature_slopes@ == slopes_of(
            self.anchors@,
            kelvin_values(self.anchors@),
        )
    }

    /// The point that the curve passes at `time`, before device bounds.
    pub open spec fn point_at(self, time: TimeOfDay) -> Result<CurvePoint, CurveError> {
        point_through(self.anchors@, time)
    }

    pub fn new(anchors: Vec<CurveAnchor>) -> (result: Result<Self, CurveError>)
        requires
            forall|i: int| 0 <= i < anchors@.len() ==> (#[trigger] anchors@[i]).time.wf(),
        ensures
            match result {
                Ok(curve) => {
                    &&& anchors@.len() >= 2
                    &&& forall|seconds: u32| anchors_at(anchors@, seconds) <= 1
                    &&& curve.wf()
                    &&& curve.anchors@.to_multiset() == anchors@.to_multiset()
                    &&& strictly_timed(anchors@) ==> curve.anchors@ == anchors@
                },
                Err(CurveError::TooFewAnchors) => anchors@.len() < 2,
                Err(CurveError::DuplicateAnchorTime(time)) => {
                    &&& anchors@.len() >= 2
                    &&& anchors_at(anchors@, time.seconds) > 1
                    &&& forall|seconds: u32|
                        anchors_at(anchors@, seconds) > 1 ==> time.seconds <= seconds
                },
                Err(_) => false,
            },
    {
        if anchors.len() < 2 {
            return Err(CurveError::TooFewAnchors);
        }
        let sorted = sort_anchors(&anchors);
        let mut i: usize = 1;
        while i < sorted.len()
            invariant
                1 <= i <= sorted@.len(),
                timed(sorted@),
                anchors@.len() >= 2,
                sorted@.to_multiset() == anchors@.to_multiset(),
                timed(anchors@) ==> sorted@ == anchors@,
                forall|t: u32| anchors_at(sorted@, t) == anchors_at(anchors@, t),
                forall|j: int|
                    0 < j < i ==> sorted@[j - 1].time.seconds < (
                    #[trigger] sorted@[j]).time.seconds,
            decreases sorted@.len() - i,
        {
            if sorted[i - 1].time.seconds == sorted[i].time.seconds {
                proof {
                    lemma_first_repeat(sorted@, i as int);
                    let seconds = sorted@[i - 1].time.seconds;
                    assert(anchors_at(anchors@, seconds) == anchors_at(sorted@, seconds));
                    assert forall|t: u32| #[trigger] anchors_at(anchors@, t) > 1 implies seconds
                        <= t by {
                        assert(anchors_at(anchors@, t) == anchors_at(sorted@, t));
                    }
                }
                return Err(CurveError::DuplicateAnchorTime(sorted[i - 1].time));
            }
            i = i + 1;
        }
        proof {
            lemma_no_repeat(sorted@);
            assert forall|t: u32| #[trigger] anchors_at(anchors@, t) <= 1 by {
                assert(anchors_at(anchors@, t) == anchors_at(sorted@, t));
            }
            lemma_same_members(anchors@, sorted@);
        }
        let mut brightness: Vec<Double> = Vec::new();
        let mut kelvin: Vec<Double> = Vec::new();
        let mut k: usize = 0;
        while k < sorted.len()
            invariant
                k <= sorted@.len(),
                brightness@ == brightness_values(sorted@).take(k as int),
                kelvin@ == kelvin_values(sorted@).take(k as int),
            decreases sorted@.len() - k,
        {
            brightness.push(sorted[k].brightness.value);
            kelvin.push(sorted[k].color_temperature.value);
            k = k + 1;
            assert(brightness@ =~= brightness_values(sorted@).take(k as int));
            assert(kelvin@ =~= kelvin_values(sorted@).take(k as int));
        }
        assert(brightness@ =~= brightness_values(sorted@));
        assert(kelvin@ =~= kelvin_values(sorted@));
        let brightness_slopes = cyclic_monotone_slopes(&sorted, &brightness);
        let color_temperature_slopes = cyclic_monotone_slopes(&sorted, &kelvin);
        Ok(CircadianCurve { anchors: sorted, brightness_slopes, color_temperature_slopes })
    }

    pub fn anchors(&self) -> (anchors: &[CurveAnchor])
        ensures
            anchors@ == self.anchors@,
    {
        self.anchors.as_slice()
    }

    /// The point that the curve passes at `time`, before device bounds.
    pub fn point(&self, time: TimeOfDay) -> (result: Result<CurvePoint, CurveError>)
        requires
            self.wf(),
            time.wf(),
        ensures
            result == self.point_at(time),
    {
        let mut brightness: Vec<Double> = Vec::new();
        let mut kelvin: Vec<Double> = Vec::new();
        let mut k: usize = 0;
        while k < self.anchors.len()
            invariant
                k <= self.anchors@.len(),
                brightness@ == brightness_values(self.anchors@).take(k as int),
                kelvin@ == kelvin_values(self.anchors@).take(k as int),
            decreases self.anchors@.len() - k,
        {
            brightness.push(self.anchors[k].brightness.value);
            kelvin.push(self.anchors[k].color_temperature.value);
            k = k + 1;
            assert(brightness@ =~= brightness_values(self.anchors@).take(k as int));
            assert(kelvin@ =~= kelvin_values(self.anchors@).take(k as int));
        }
        assert(brightness@ =~= brightness_values(self.anchors@));
        assert(kelvin@ =~= kelvin_values(self.anchors@));
        let light = interpolate(&self.anchors, &brightness, &self.brightness_slopes, time);
        let warmth = interpolate(&self.anchors, &kelvin, &self.color_temperature_slopes, time);
        let brightness = match Brightness::clamped(light) {
            Ok(brightness) => brightness,
            Err(error) => return Err(CurveError::InvalidValue(error)),
        };
        match Kelvin::new(warmth) {
            Ok(color_temperature) => Ok(CurvePoint { brightness, color_temperature }),
            Err(error) => Err(CurveError::InvalidValue(error)),
        }
    }

    /// The point at `time`, its colour temperature within `kelvin_range`.
    pub fn sample(&self, time: TimeOfDay, kelvin_range: KelvinRange) -> (result: Result<
        CurvePoint,
        CurveError,
    >)
        requires
            self.wf(),
            time.wf(),
        ensures
            result == match self.point_at(time) {
                Ok(point) => Ok::<CurvePoint, CurveError>(
                    CurvePoint {
                        brightness: point.brightness,
                        color_temperature: Kelvin {
                            value: kelvin_range.bounded(point.color_temperature.value),
                        },
                    },
                ),
                Err(error) => Err(error),
            },
    {
        match self.point(time) {
            Ok(point) => Ok(
                CurvePoint {
                    brightness: point.brightness,
                    color_temperature: kelvin_range.clamp(point.color_temperature),
                },
            ),
            Err(error) => Err(error),
        }
    }
}

impl Clone for CircadianCurve {
    fn clone(&self) -> (result: Self)
        ensures
            result.anchors@ == self.anchors@,
            result.brightness_slopes@ == self.brightness_slopes@,
            result.color_temperature_slopes@ == self.color_temperature_slopes@,
    {
        let anchors = self.anchors.clone();
        let brightness_slopes = self.brightness_slopes.clone();
        let color_temperature_slopes = self.color_temperature_slopes.clone();
        assert(anchors@ =~= self.anchors@);
        assert(brightness_slopes@ =~= self.brightness_slopes@);
        assert(color_temperature_slopes@ =~= self.color_temperature_slopes@);
        CircadianCurve { anchors, brightness_slopes, color_temperature_slopes }
    }
}

fn sort_anchors(anchors: &Vec<CurveAnchor>) -> (sorted: Vec<CurveAnchor>)
    ensures
        timed(sorted@),
        sorted@.len() == anchors@.len(),
        sorted@.to_multiset() == anchors@.to_multiset(),
        timed(anchors@) ==> sorted@ == anchors@,
        forall|t: u32| anchors_at(sorted@, t) == anchors_at(anchors@, t),
{
    let mut sorted: Vec<CurveAnchor> = Vec::new();
    let mut k: usize = 0;
    assert(anchors@.take(0) =~= Seq::<CurveAnchor>::empty());
    while k < anchors.len()
        invariant
            k <= anchors@.len(),
            sorted@.len() == k,
            timed(sorted@),
            sorted@.to_multiset() == anchors@.take(k as int).to_multiset(),
            timed(anchors@) ==> sorted@ == anchors@.take(k as int),
            forall|t: u32| anchors_at(sorted@, t) == anchors_at(anchors@.take(k as int), t),
        decreases anchors@.len() - k,
    {
        let anchor = anchors[k];
        let mut i: usize = 0;
        while i < sorted.len() && sorted[i].time.seconds <= anchor.time.seconds
            invariant
                i <= sorted@.len(),
                forall|j: int|
                    0 <= j < i ==> (#[trigger] sorted@[j]).time.seconds <= anchor.time.seconds,
            decreases sorted@.len() - i,
        {
            i = i + 1;
        }
        let ghost before = sorted@;
        sorted.insert(i, anchor);
        proof {
            broadcast use vstd::seq_lib::group_to_multiset_ensures;

            assert forall|a: int, b: int| 0 <= a < b < sorted@.len() implies (
            #[trigger] sorted@[a]).time.seconds <= (#[trigger] sorted@[b]).time.seconds by {
                let x = if a < i { a } else { a - 1 };
                let y = if b < i { b } else { b - 1 };
                assert(a != i ==> sorted@[a] == before[x]);
                assert(b != i ==> sorted@[b] == before[y]);
            }
            assert(anchors@.take(k + 1) =~= anchors@.take(k as int).push(anchor));
            if timed(anchors@) {
                if i < before.len() {
                    assert(before[i as int] == anchors@[i as int]);
                    assert(anchors@[i as int].time.seconds <= anchors@[k as int].time.seconds);
                }
                assert(sorted@ =~= anchors@.take(k + 1));
            }
            vstd::seq_lib::to_multiset_insert(before, i as int, anchor);
            assert(anchors@.take(k + 1).drop_last() =~= anchors@.take(k as int));
            assert forall|t: u32| anchors_at(sorted@, t) == anchors_at(anchors@.take(k + 1), t) by {
                lemma_count_insert(before, i as int, anchor, t);
            }
        }
        k = k + 1;
    }
    assert(anchors@.take(k as int) =~= anchors@);
    sorted
}

proof fn lemma_count_insert(anchors: Seq<CurveAnchor>, i: int, anchor: CurveAnchor, seconds: u32)
    requires
        0 <= i <= anchors.len(),
    ensures
        anchors_at(anchors.insert(i, anchor), seconds) == anchors_at(anchors, seconds) + (
        if anchor.time.seconds == seconds {
            1nat
        } else {
            0
        }),
    decreases anchors.len(),
{
    let next = anchors.insert(i, anchor);
    if i == anchors.len() {
        assert(next.drop_last() =~= anchors);
    } else {
        assert(next.drop_last() =~= anchors.drop_last().insert(i, anchor));
        assert(next.last() == anchors.last());
        lemma_count_insert(anchors.drop_last(), i, anchor, seconds);
    }
}

/// Times that are absent are counted zero times, and two places count twice.
proof fn lemma_count_places(anchors: Seq<CurveAnchor>, seconds: u32)
    ensures
        anchors_at(anchors, seconds) > 0 ==> exists|a: int|
            0 <= a < anchors.len() && (#[trigger] anchors[a]).time.seconds == seconds,
        anchors_at(anchors, seconds) > 1 ==> exists|a: int, b: int|
            0 <= a < b < anchors.len() && (#[trigger] anchors[a]).time.seconds == seconds && (
            #[trigger] anchors[b]).time.seconds == seconds,
        forall|a: int|
            0 <= a < anchors.len() && (#[trigger] anchors[a]).time.seconds == seconds
                ==> anchors_at(anchors, seconds) > 0,
        forall|a: int, b: int|
            0 <= a < b < anchors.len() && (#[trigger] anchors[a]).time.seconds == seconds && (
            #[trigger] anchors[b]).time.seconds == seconds ==> anchors_at(anchors, seconds) > 1,
    decreases anchors.len(),
{
    if anchors.len() > 0 {
        let rest = anchors.drop_last();
        let last = anchors.len() - 1;
        lemma_count_places(rest, seconds);
        assert forall|a: int| 0 <= a < rest.len() implies #[trigger] rest[a] == anchors[a] by {}
        if anchors_at(anchors, seconds) > 1 {
            if anchors[last].time.seconds == seconds {
                let a = choose|a: int|
                    0 <= a < rest.len() && (#[trigger] rest[a]).time.seconds == seconds;
                assert(anchors[a].time.seconds == seconds && anchors[last].time.seconds == seconds);
            } else {
                let (a, b) = choose|a: int, b: int|
                    0 <= a < b < rest.len() && (#[trigger] rest[a]).time.seconds == seconds && (
                    #[trigger] rest[b]).time.seconds == seconds;
                assert(anchors[a].time.seconds == seconds && anchors[b].time.seconds == seconds);
            }
        }
        if anchors_at(anchors, seconds) > 0 {
            if anchors[last].time.seconds != seconds {
                let a = choose|a: int|
                    0 <= a < rest.len() && (#[trigger] rest[a]).time.seconds == seconds;
                assert(anchors[a].time.seconds == seconds);
            }
        }
        assert forall|a: int|
            0 <= a < anchors.len() && (#[trigger] anchors[a]).time.seconds == seconds implies anchors_at(
            anchors,
            seconds,
        ) > 0 by {
            if a < last {
                assert(rest[a].time.seconds == seconds);
            }
        }
        assert forall|a: int, b: int|
            0 <= a < b < anchors.len() && (#[trigger] anchors[a]).time.seconds == seconds && (
            #[trigger] anchors[b]).time.seconds == seconds implies anchors_at(anchors, seconds)
            > 1 by {
            assert(rest[a].time.seconds == seconds);
            if b < last {
                assert(rest[b].time.seconds == seconds);
            }
        }
    }
}

proof fn lemma_first_repeat(sorted: Seq<CurveAnchor>, i: int)
    requires
        timed(sorted),
        1 <= i < sorted.len(),
        sorted[i - 1].time.seconds == sorted[i].time.seconds,
        forall|j: int| 0 < j < i ==> sorted[j - 1].time.seconds < (#[trigger] sorted[j]).time.seconds,
    ensures
        anchors_at(sorted, sorted[i].time.seconds) > 1,
        forall|t: u32| anchors_at(sorted, t) > 1 ==> sorted[i].time.seconds <= t,
{
    lemma_count_places(sorted, sorted[i].time.seconds);
    assert forall|t: u32| anchors_at(sorted, t) > 1 implies sorted[i].time.seconds <= t by {
        lemma_count_places(sorted, t);
        let (a, b) = choose|a: int, b: int|
            0 <= a < b < sorted.len() && (#[trigger] sorted[a]).time.seconds == t && (
            #[trigger] sorted[b]).time.seconds == t;
        if a + 1 < i {
            assert(sorted[(a + 1) - 1].time.seconds < sorted[a + 1].time.seconds);
            assert(sorted[a + 1].time.seconds <= sorted[b].time.seconds);
        }
        assert(sorted[i].time.seconds <= t);
    }
}

proof fn lemma_no_repeat(sorted: Seq<CurveAnchor>)
    requires
        timed(sorted),
        forall|j: int|
            0 < j < sorted.len() ==> sorted[j - 1].time.seconds < (
            #[trigger] sorted[j]).time.seconds,
    ensures
        strictly_timed(sorted),
        forall|t: u32| anchors_at(sorted, t) <= 1,
{
    assert forall|a: int, b: int| 0 <= a < b < sorted.len() implies (
    #[trigger] sorted[a]).time.seconds < (#[trigger] sorted[b]).time.seconds by {
        assert(sorted[(a + 1) - 1].time.seconds < sorted[a + 1].time.seconds);
    }
    assert forall|t: u32| anchors_at(sorted, t) <= 1 by {
        lemma_count_places(sorted, t);
    }
}

/// Anchors at strictly ascending times are at most one at a time.
pub proof fn lemma_strict_is_single(anchors: Seq<CurveAnchor>, seconds: u32)
    requires
        strictly_timed(anchors),
    ensures
        anchors_at(anchors, seconds) <= 1,
{
    lemma_count_places(anchors, seconds);
}

proof fn lemma_same_members(a: Seq<CurveAnchor>, b: Seq<CurveAnchor>)
    requires
        a.to_multiset() == b.to_multiset(),
        forall|i: int| 0 <= i < a.len() ==> (#[trigger] a[i]).time.wf(),
    ensures
        forall|i: int| 0 <= i < b.len() ==> (#[trigger] b[i]).time.wf(),
{
    broadcast use vstd::seq_lib::group_to_multiset_ensures;

    assert forall|i: int| 0 <= i < b.len() implies (#[trigger] b[i]).time.wf() by {
        assert(b.contains(b[i]));
        assert(b.to_multiset().count(b[i]) > 0);
        assert(a.contains(b[i]));
    }
}

fn cyclic_width(left: TimeOfDay, right: TimeOfDay) -> (width: Double)
    requires
        left.wf(),
        right.wf(),
    ensures
        width == Double::of_nat(cyclic_seconds(left, right)),
{
    if right.seconds > left.seconds {
        Double::from_u64((right.seconds - left.seconds) as u64)
    } else {
        Double::from_u64((SECONDS_PER_DAY - left.seconds + right.seconds) as u64)
    }
}

fn monotone_slope(previous_width: Double, next_width: Double, previous: Double, next: Double) -> (slope:
    Double)
    ensures
        slope == monotone(previous_width, next_width, previous, next),
{
    let zero = Double::from_bits(0);
    let two = Double::from_bits(TWO);
    if previous.equals(zero) || next.equals(zero) || previous.is_nan() || next.is_nan()
        || previous.is_negative() != next.is_negative() {
        return zero;
    }
    let previous_weight = two.times(next_width).plus(previous_width);
    let next_weight = next_width.plus(two.times(previous_width));
    previous_weight.plus(next_weight).over(
        previous_weight.over(previous).plus(next_weight.over(next)),
    )
}

#[verifier::spinoff_prover]
#[verifier::rlimit(60)]
fn cyclic_monotone_slopes(anchors: &Vec<CurveAnchor>, values: &Vec<Double>) -> (slopes: Vec<Double>)
    requires
        anchors@.len() >= 2,
        values@.len() == anchors@.len(),
        forall|i: int| 0 <= i < anchors@.len() ==> (#[trigger] anchors@[i]).time.wf(),
    ensures
        slopes@ == slopes_of(anchors@, values@),
{
    let count: usize = anchors.len();
    let mut slopes: Vec<Double> = Vec::new();
    let mut i: usize = 0;
    while i < count
        invariant
            i <= count,
            count == anchors@.len(),
            count >= 2,
            values@.len() == count,
            slopes@ == slopes_of(anchors@, values@).take(i as int),
            forall|j: int| 0 <= j < anchors@.len() ==> (#[trigger] anchors@[j]).time.wf(),
        decreases count - i,
    {
        let slope = if count == 2 {
            Double::from_bits(0)
        } else {
            let before: usize = if i > 0 {
                i - 1
            } else {
                count - 1
            };
            let after: usize = if i + 1 < count {
                i + 1
            } else {
                0
            };
            let previous_width = cyclic_width(anchors[before].time, anchors[i].time);
            let next_width = cyclic_width(anchors[i].time, anchors[after].time);
            let previous = values[i].minus(values[before]).over(previous_width);
            let next = values[after].minus(values[i]).over(next_width);
            monotone_slope(previous_width, next_width, previous, next)
        };
        slopes.push(slope);
        i = i + 1;
        assert(slopes@ =~= slopes_of(anchors@, values@).take(i as int));
    }
    assert(slopes@ =~= slopes_of(anchors@, values@));
    slopes
}

pub(crate) proof fn lemma_earlier(anchors: Seq<CurveAnchor>, seconds: u32, i: int)
    requires
        0 <= i <= anchors.len(),
        forall|j: int| 0 <= j < i ==> (#[trigger] anchors[j]).time.seconds < seconds,
        i < anchors.len() ==> anchors[i].time.seconds >= seconds,
    ensures
        earlier(anchors, seconds) == i,
    decreases i,
{
    if i > 0 {
        let rest = anchors.drop_first();
        assert(anchors[0].time.seconds < seconds);
        assert forall|j: int| 0 <= j < i - 1 implies (#[trigger] rest[j]).time.seconds < seconds by {
            assert(rest[j] == anchors[j + 1]);
        }
        lemma_earlier(rest, seconds, i - 1);
    }
}

fn segment(anchors: &Vec<CurveAnchor>, time: TimeOfDay) -> (indices: (usize, usize))
    requires
        anchors@.len() >= 2,
        strictly_timed(anchors@),
    ensures
        neighbors(anchors@, time) == (indices.0 as int, indices.1 as int),
        indices.0 < anchors@.len(),
        indices.1 < anchors@.len(),
{
    let count: usize = anchors.len();
    let mut i: usize = 0;
    while i < count && anchors[i].time.seconds < time.seconds
        invariant
            i <= count,
            count == anchors@.len(),
            forall|j: int| 0 <= j < i ==> (#[trigger] anchors@[j]).time.seconds < time.seconds,
        decreases count - i,
    {
        i = i + 1;
    }
    proof {
        lemma_earlier(anchors@, time.seconds, i as int);
    }
    if i < count && anchors[i].time.seconds == time.seconds {
        (i, i)
    } else if i == 0 || i == count {
        (count - 1, 0)
    } else {
        (i - 1, i)
    }
}

fn interpolate(
    anchors: &Vec<CurveAnchor>,
    values: &Vec<Double>,
    slopes: &Vec<Double>,
    time: TimeOfDay,
) -> (value: Double)
    requires
        anchors@.len() >= 2,
        strictly_timed(anchors@),
        forall|i: int| 0 <= i < anchors@.len() ==> (#[trigger] anchors@[i]).time.wf(),
        values@.len() == anchors@.len(),
        slopes@.len() == anchors@.len(),
        time.wf(),
    ensures
        value == interpolated(anchors@, values@, slopes@, time),
{
    let (left, right) = segment(anchors, time);
    if left == right {
        return values[left];
    }
    let width = cyclic_width(anchors[left].time, anchors[right].time);
    let start: u32 = anchors[left].time.seconds;
    let passed: u32 = if time.seconds < start {
        SECONDS_PER_DAY - start + time.seconds
    } else {
        time.seconds - start
    };
    let position = Double::from_u64(passed as u64).over(width);
    let low = values[left];
    let high = values[right];
    let free = if anchors.len() == 2 {
        low.plus(position.times(high.minus(low)))
    } else {
        let two = Double::from_bits(TWO);
        let three = Double::from_bits(THREE);
        let squared = position.times(position);
        let cubed = squared.times(position);
        let left_basis = two.times(cubed).minus(three.times(squared)).plus(Double::from_bits(ONE));
        let left_slope_basis = cubed.minus(two.times(squared)).plus(position);
        let right_basis = Double::from_bits(MINUS_TWO).times(cubed).plus(three.times(squared));
        let right_slope_basis = cubed.minus(squared);
        left_basis.times(low).plus(left_slope_basis.times(width).times(slopes[left])).plus(
            right_basis.times(high),
        ).plus(right_slope_basis.times(width).times(slopes[right]))
    };
    let least = if high.lt(low) {
        high
    } else {
        low
    };
    let most = if low.lt(high) {
        high
    } else {
        low
    };
    free.clamp(least, most)
}

/// Widths between anchors are at least a second and at most a day.
proof fn lemma_width(anchors: Seq<CurveAnchor>, i: int, j: int)
    requires
        strictly_timed(anchors),
        0 <= i < anchors.len(),
        0 <= j < anchors.len(),
        i != j,
        anchors[i].time.wf(),
        anchors[j].time.wf(),
    ensures
        1 <= cyclic_seconds(anchors[i].time, anchors[j].time) <= 86_400,
{
    if i < j {
        assert(anchors[i].time.seconds < anchors[j].time.seconds);
    } else {
        assert(anchors[j].time.seconds < anchors[i].time.seconds);
    }
}

/// A value that an anchor can have: finite and not below zero.
pub open spec fn shown(value: Double) -> bool {
    value.finite() && (Double { bits: 0 }).at_most(value)
}

/// The secant between two values, over a width of at least two to the power `k`.
pub(crate) proof fn lemma_secant(a: Double, b: Double, width: nat, k: nat)
    requires
        shown(a),
        shown(b),
        1 <= width <= 86_400,
        pow2(k) <= width,
        k <= 16,
    ensures
        ({
            let secant = b.difference(a).quotient(Double::of_nat(width));
            let exact = b.units() - a.units();
            &&& secant.finite()
            &&& secant.size() <= pow2((2098 - k) as nat)
            &&& secant.code() != 0 ==> exact != 0 && secant.negative() == (exact < 0)
            &&& -pow2(2097) <= exact <= pow2(2097) ==> secant.size() <= pow2(2097)
        }),
{
    let u = crate::bounds::unit();
    let gap = b.difference(a);
    let span = Double::of_nat(width);
    Double::negation(a);
    if a.at_most(b) {
        Double::lemma_gap(b, a);
    } else {
        Double::lemma_gap(a, b);
    }
    Double::lemma_sum_place(b, a.negated());
    Double::sizes(gap);
    Double::counts_are_exact(width);
    lemma_pow2_pos(1074);
    assert(u <= width * u) by (nonlinear_arith)
        requires
            1 <= width,
            0 < u,
    ;
    Double::quotients_shrink(gap, span);
    Double::sizes(span);
    let p = pow2(k) as int;
    let r = pow2((2098 - k) as nat) as int;
    let d = gap.size();
    lemma_pow2_adds(k, (2098 - k) as nat);
    lemma_pow2_pos(k);
    lemma_pow2_pos((2098 - k) as nat);
    assert(d * u <= (width * u) * (1 * r)) by (nonlinear_arith)
        requires
            0 <= d <= p * r,
            0 < p <= width,
            0 < r,
            0 < u,
    ;
    Double::quotients_below(gap, span, 1, (2098 - k) as nat);
    let exact = b.units() - a.units();
    if -pow2(2097) <= exact <= pow2(2097) {
        assert(1 * pow2(2097) == pow2(2097));
        Double::sums_below(b, a.negated(), 1, 2097);
    }
}

/// Of two values in a row that rise or fall, one step is at most half the range.
proof fn lemma_half(a: Double, b: Double, c: Double)
    requires
        shown(a),
        shown(b),
        shown(c),
        (a.units() < b.units() && b.units() < c.units()) || (a.units() > b.units() && b.units()
            > c.units()),
    ensures
        -pow2(2097) <= b.units() - a.units() <= pow2(2097) || -pow2(2097) <= c.units()
            - b.units() <= pow2(2097),
{
    Double::sizes(a);
    Double::sizes(b);
    Double::sizes(c);
    lemma_pow2_unfold(2098);
}

/// A finite slope that does not leave the range over a width of less than two to the
/// power `k + 1`, three times over.
#[verifier::opaque]
spec fn moderate(slope: Double, k: nat) -> bool {
    slope.finite() && slope.size() <= 3 * pow2((2098 - k) as nat)
}

/// The slope at the second of three values.
proof fn lemma_turn(
    a: Double,
    b: Double,
    c: Double,
    previous_width: nat,
    next_width: nat,
    j: nat,
    k: nat,
)
    requires
        shown(a),
        shown(b),
        shown(c),
        1 <= previous_width <= 86_400,
        1 <= next_width <= 86_400,
        j <= 16,
        k <= 16,
        pow2(j) <= previous_width,
        pow2(k) <= next_width,
    ensures
        ({
            let slope = monotone(
                Double::of_nat(previous_width),
                Double::of_nat(next_width),
                b.difference(a).quotient(Double::of_nat(previous_width)),
                c.difference(b).quotient(Double::of_nat(next_width)),
            );
            moderate(slope, j) && moderate(slope, k)
        }),
{
    let previous = b.difference(a).quotient(Double::of_nat(previous_width));
    let next = c.difference(b).quotient(Double::of_nat(next_width));
    lemma_secant(a, b, previous_width, j);
    lemma_secant(b, c, next_width, k);
    if previous.code() != 0 && next.code() != 0 && previous.negative() == next.negative() {
        lemma_half(a, b, c);
    }
    crate::cubic::lemma_slope(previous_width, next_width, previous, next, j, k);
    reveal(moderate);
}

/// The slope at an anchor, for a width to either side of at least two to a power.
#[verifier::spinoff_prover]
#[verifier::rlimit(60)]
proof fn lemma_slope_at(
    anchors: Seq<CurveAnchor>,
    values: Seq<Double>,
    i: int,
    j: nat,
    k: nat,
)
    requires
        anchors.len() >= 2,
        values.len() == anchors.len(),
        strictly_timed(anchors),
        forall|n: int| 0 <= n < anchors.len() ==> (#[trigger] anchors[n]).time.wf(),
        forall|n: int| 0 <= n < values.len() ==> shown(#[trigger] values[n]),
        0 <= i < anchors.len(),
        j <= 16,
        k <= 16,
        pow2(j) <= width_seconds(anchors, preceding(i, anchors.len() as int)),
        pow2(k) <= width_seconds(anchors, i),
    ensures
        ({
            let slope = slope_at(anchors, values, i);
            moderate(slope, j) && moderate(slope, k)
        }),
{
    let count = anchors.len() as int;
    if count == 2 {
        reveal(moderate);
        lemma_pow2_pos((2098 - j) as nat);
        lemma_pow2_pos((2098 - k) as nat);
        assert(crate::double::code_units(0) == 0);
        assert((Double { bits: 0 }).size() == 0);
    } else {
        let before = preceding(i, count);
        let after = following(i, count);
        assert(following(before, count) == i);
        lemma_width(anchors, before, i);
        lemma_width(anchors, i, after);
        assert(shown(values[before]) && shown(values[i]) && shown(values[after]));
        lemma_turn(
            values[before],
            values[i],
            values[after],
            width_seconds(anchors, before),
            width_seconds(anchors, i),
            j,
            k,
        );
    }
}

/// Before it is kept between its neighbours' values, the value of a curve is a number.
#[verifier::spinoff_prover]
#[verifier::rlimit(40)]
proof fn lemma_free(anchors: Seq<CurveAnchor>, values: Seq<Double>, time: TimeOfDay)
    requires
        anchors.len() >= 2,
        values.len() == anchors.len(),
        strictly_timed(anchors),
        time.wf(),
        forall|n: int| 0 <= n < anchors.len() ==> (#[trigger] anchors[n]).time.wf(),
        forall|n: int| 0 <= n < values.len() ==> shown(#[trigger] values[n]),
        ({
            let (left, right) = neighbors(anchors, time);
            &&& left != right
            &&& 0 <= left < anchors.len()
            &&& 0 <= right < anchors.len()
        }),
    ensures
        ({
            let (left, right) = neighbors(anchors, time);
            let width = Double::of_nat(cyclic_seconds(anchors[left].time, anchors[right].time));
            let position = Double::of_nat(elapsed(anchors[left].time, time)).quotient(width);
            let slopes = slopes_of(anchors, values);
            &&& !values[left].sum(position.product(values[right].difference(values[left]))).nan()
            &&& !hermite(
                position,
                width,
                values[left],
                slopes[left],
                values[right],
                slopes[right],
            ).nan()
        }),
{
    let (left, right) = neighbors(anchors, time);
    let count = anchors.len() as int;
    let span = cyclic_seconds(anchors[left].time, anchors[right].time);
    let position = Double::of_nat(elapsed(anchors[left].time, time)).quotient(
        Double::of_nat(span),
    );
    let slopes = slopes_of(anchors, values);
    lemma_width(anchors, left, right);
    lemma_elapsed(anchors, time);
    assert(following(left, count) == right && preceding(right, count) == left);
    assert(span == width_seconds(anchors, left));
    lemma_part(elapsed(anchors[left].time, time), span);
    assert(shown(values[left]) && shown(values[right]));
    lemma_straight(values[left], values[right], position);
    let k = crate::cubic::lemma_power_below(span as int);
    let before = preceding(left, count);
    let after = following(right, count);
    lemma_width(anchors, before, left);
    lemma_width(anchors, right, after);
    assert(following(before, count) == left);
    let i = crate::cubic::lemma_power_below(width_seconds(anchors, before) as int);
    let j = crate::cubic::lemma_power_below(width_seconds(anchors, right) as int);
    lemma_slope_at(anchors, values, left, i, k);
    lemma_slope_at(anchors, values, right, k, j);
    reveal(moderate);
    crate::cubic::lemma_cubic(
        position,
        span,
        values[left],
        slopes[left],
        values[right],
        slopes[right],
        k,
    );
}

/// Part of a span is at most one.
proof fn lemma_part(passed: nat, span: nat)
    requires
        passed <= span <= 86_400,
        1 <= span,
    ensures
        ({
            let part = Double::of_nat(passed).quotient(Double::of_nat(span));
            &&& part.finite()
            &&& !part.negative()
            &&& part.size() <= crate::bounds::unit()
        }),
{
    let u = crate::bounds::unit();
    Double::counts_are_exact(passed);
    Double::counts_are_exact(span);
    lemma_pow2_pos(1074);
    assert((passed * u) * u <= (span * u) * (1 * u)) by (nonlinear_arith)
        requires
            0 <= passed <= span,
            0 < u,
    ;
    assert(0 < span * u) by (nonlinear_arith)
        requires
            1 <= span,
            0 < u,
    ;
    lemma_pow2_strictly_increases(1074, 2098);
    Double::sizes(Double::of_nat(span));
    Double::quotients_below(Double::of_nat(passed), Double::of_nat(span), 1, 1074);
}

/// A straight line between two values is a number.
proof fn lemma_straight(left: Double, right: Double, position: Double)
    requires
        shown(left),
        shown(right),
        position.finite(),
        position.size() <= crate::bounds::unit(),
    ensures
        !left.sum(position.product(right.difference(left))).nan(),
{
    if left.at_most(right) {
        Double::lemma_gap(right, left);
    } else {
        Double::lemma_gap(left, right);
    }
    let gap = right.difference(left);
    Double::products_shrink(position, gap);
    Double::finite_operations(left, position.product(gap));
}

/// A curve has a value at every time, between those of its neighbours.
pub(crate) proof fn lemma_interpolated(anchors: Seq<CurveAnchor>, values: Seq<Double>, time: TimeOfDay)
    requires
        anchors.len() >= 2,
        values.len() == anchors.len(),
        strictly_timed(anchors),
        time.wf(),
        forall|n: int| 0 <= n < anchors.len() ==> (#[trigger] anchors[n]).time.wf(),
        forall|n: int| 0 <= n < values.len() ==> shown(#[trigger] values[n]),
    ensures
        ({
            let (left, right) = neighbors(anchors, time);
            let value = interpolated(anchors, values, slopes_of(anchors, values), time);
            &&& 0 <= left < anchors.len()
            &&& 0 <= right < anchors.len()
            &&& value.finite()
            &&& lesser(values[left], values[right]).at_most(value)
            &&& value.at_most(greater(values[left], values[right]))
        }),
{
    lemma_earlier_splits(anchors, time.seconds);
    let (left, right) = neighbors(anchors, time);
    assert(shown(values[left]) && shown(values[right]));
    if left != right {
        lemma_free(anchors, values, time);
    }
}

/// What lies between two valid colour temperatures, in either order, is valid.
proof fn lemma_between_neighbors(a: Kelvin, b: Kelvin, value: Double)
    requires
        a.wf(),
        b.wf(),
        value.finite(),
        lesser(a.value, b.value).at_most(value),
        value.at_most(greater(a.value, b.value)),
    ensures
        Kelvin::checked(value) is Ok,
{
    if b.value.less(a.value) {
        Kelvin::between_is_valid(b, a, value);
    } else {
        Kelvin::between_is_valid(a, b, value);
    }
}

/// A time lies no further from the anchor before it than the anchor after it.
proof fn lemma_elapsed(anchors: Seq<CurveAnchor>, time: TimeOfDay)
    requires
        anchors.len() >= 2,
        strictly_timed(anchors),
        time.wf(),
        forall|j: int| 0 <= j < anchors.len() ==> (#[trigger] anchors[j]).time.wf(),
    ensures
        ({
            let (left, right) = neighbors(anchors, time);
            left != right ==> elapsed(anchors[left].time, time) <= cyclic_seconds(
                anchors[left].time,
                anchors[right].time,
            )
        }),
{
    lemma_earlier_splits(anchors, time.seconds);
    let i = earlier(anchors, time.seconds);
    let count = anchors.len() as int;
    if 0 < i {
        assert(anchors[i - 1].time.seconds < time.seconds);
    }
    assert(anchors[0].time.seconds < anchors[count - 1].time.seconds);
}

/// What comes before the place of a time is earlier, what comes there is not.
proof fn lemma_earlier_splits(anchors: Seq<CurveAnchor>, seconds: u32)
    ensures
        ({
            let i = earlier(anchors, seconds);
            &&& 0 <= i <= anchors.len()
            &&& 0 < i ==> anchors[i - 1].time.seconds < seconds
            &&& i < anchors.len() ==> seconds <= anchors[i].time.seconds
        }),
    decreases anchors.len(),
{
    if !(anchors.len() == 0 || anchors[0].time.seconds >= seconds) {
        lemma_earlier_splits(anchors.drop_first(), seconds);
        let i = earlier(anchors.drop_first(), seconds);
        if 0 < i {
            assert(anchors.drop_first()[i - 1] == anchors[i]);
        }
        if i < anchors.len() - 1 {
            assert(anchors.drop_first()[i] == anchors[i + 1]);
        }
    }
}

/// Valid anchors in order give a point at every time of day.
pub proof fn points_at_all_times(anchors: Seq<CurveAnchor>, time: TimeOfDay)
    requires
        anchors.len() >= 2,
        strictly_timed(anchors),
        time.wf(),
        forall|i: int| 0 <= i < anchors.len() ==> (#[trigger] anchors[i]).wf(),
    ensures
        point_through(anchors, time) is Ok,
{
    let light = brightness_values(anchors);
    let warmth = kelvin_values(anchors);
    assert forall|i: int| 0 <= i < light.len() implies shown(#[trigger] light[i]) by {
        assert(anchors[i].wf());
    }
    assert forall|i: int| 0 <= i < warmth.len() implies shown(#[trigger] warmth[i]) by {
        assert(anchors[i].wf());
    }
    assert(interpolated(anchors, light, slopes_of(anchors, light), time).finite()) by {
        lemma_interpolated(anchors, light, time);
    }
    assert(Kelvin::checked(
        interpolated(anchors, warmth, slopes_of(anchors, warmth), time),
    ) is Ok) by {
        lemma_interpolated(anchors, warmth, time);
        let (left, right) = neighbors(anchors, time);
        assert(anchors[left].wf() && anchors[right].wf());
        lemma_between_neighbors(
            anchors[left].color_temperature,
            anchors[right].color_temperature,
            interpolated(anchors, warmth, slopes_of(anchors, warmth), time),
        );
    }
}

impl CircadianCurve {
    /// At an anchor's time the curve shows that anchor's values.
    pub proof fn passes_through_anchors(self, i: int)
        requires
            self.wf(),
            0 <= i < self.anchors@.len(),
            self.anchors@[i].wf(),
        ensures
            self.point_at(self.anchors@[i].time) == Ok::<CurvePoint, CurveError>(
                CurvePoint {
                    brightness: self.anchors@[i].brightness,
                    color_temperature: self.anchors@[i].color_temperature,
                },
            ),
    {
        lemma_earlier(self.anchors@, self.anchors@[i].time.seconds, i);
    }

    /// At every time of day the curve shows a point.
    pub proof fn shows_at_all_times(self, time: TimeOfDay)
        requires
            self.wf(),
            time.wf(),
            forall|i: int| 0 <= i < self.anchors@.len() ==> (#[trigger] self.anchors@[i]).wf(),
        ensures
            self.point_at(time) is Ok,
    {
        points_at_all_times(self.anchors@, time);
    }

    /// Between two anchors the curve never leaves the range of their values.
    pub proof fn stays_between_neighbors(self, time: TimeOfDay)
        requires
            self.wf(),
            time.wf(),
            forall|i: int| 0 <= i < self.anchors@.len() ==> (#[trigger] self.anchors@[i]).wf(),
        ensures
            self.point_at(time) is Ok,
            ({
                let point = self.point_at(time)->Ok_0;
                let (left, right) = neighbors(self.anchors@, time);
                let a = self.anchors@[left];
                let b = self.anchors@[right];
                &&& 0 <= left < self.anchors@.len()
                &&& 0 <= right < self.anchors@.len()
                &&& lesser(a.brightness.value, b.brightness.value).at_most(point.brightness.value)
                &&& point.brightness.value.at_most(greater(a.brightness.value, b.brightness.value))
                &&& lesser(a.color_temperature.value, b.color_temperature.value).at_most(
                    point.color_temperature.value,
                )
                &&& point.color_temperature.value.at_most(
                    greater(a.color_temperature.value, b.color_temperature.value),
                )
            }),
    {
        lemma_earlier_splits(self.anchors@, time.seconds);
        let (left, right) = neighbors(self.anchors@, time);
        assert(self.anchors@[left].wf());
        assert(self.anchors@[right].wf());
        self.shows_at_all_times(time);
    }
}

} // verus!
