//! How the generated day follows the sun.
use crate::amount::{eps, lemma_grow, lemma_powers, near, power, size_of};
use crate::double::Double;
use crate::light::slack;
use crate::solar::{
    SolarEvents, SolarHybridCurve, DUSK_BRIGHTNESS, DUSK_COLOR, EVENING_COLOR, MORNING_BRIGHTNESS,
    MORNING_COLOR, ONE,
};
use crate::value::MIRED_SCALE;
use vstd::arithmetic::power2::*;
use vstd::prelude::*;

verus! {

/// `seconds` is a moment in minutes, moved no further than into the bounds.
pub open spec fn moved_into(seconds: int, moment: int, low: int, high: int) -> bool {
    &&& low <= moment <= high ==> seconds == 60 * moment
    &&& moment < low ==> seconds == 60 * low
    &&& moment > high ==> seconds == 60 * high
}

impl SolarHybridCurve {
    /// The times of the six anchors.
    proof fn lemma_times(self, events: SolarEvents)
        requires
            self.wf(),
            self.day_anchors(events) is Ok,
        ensures
            ({
                let anchors = self.day_anchors(events)->Ok_0;
                let moments = self.moments(events);
                &&& anchors.len() == 6
                &&& anchors[0].time.seconds == 60 * moments.wake
                &&& anchors[1].time.seconds == 60 * moments.morning_ready
                &&& anchors[2].time.seconds == 60 * moments.noon
                &&& anchors[3].time.seconds == 60 * moments.color_evening
                &&& anchors[4].time.seconds == 60 * moments.brightness_evening
                &&& anchors[5].time.seconds == 60 * moments.bed
            }),
    {
        let results = self.anchors_for(events);
        let anchors = self.day_anchors(events)->Ok_0;
        crate::solar::lemma_collected_all(results, anchors);
        self.moments_are_apart(events);
        reveal(SolarHybridCurve::anchored);
        assert(results[0] is Ok && results[1] is Ok && results[2] is Ok && results[3] is Ok
            && results[4] is Ok && results[5] is Ok);
    }

    /// A generated day runs from wake time to bed time. Its noon is that of the sun, at
    /// least three hours after wake time and four before bed time. The morning is bright
    /// three quarters of an hour after sunrise, but not before one and a half hours after
    /// wake time nor later than an hour before noon. The colour turns three quarters of
    /// an hour after sunset and the light two hours after it, at least an hour after
    /// what comes before and two and a half and one and a half hours before bed time.
    /// Without sunrise and sunset the morning and the evening go by wake time and bed
    /// time.
    pub proof fn days_follow_the_sun(self, events: SolarEvents)
        requires
            self.wf(),
            self.day_anchors(events) is Ok,
        ensures
            ({
                let anchors = self.day_anchors(events)->Ok_0;
                let wake = self.wake_time.seconds as int / 60;
                let bed = self.bed_time.seconds as int / 60;
                let noon = anchors[2].time.seconds as int / 60;
                let turning = anchors[3].time.seconds as int / 60;
                &&& anchors.len() == 6
                &&& anchors[0].time.seconds == 60 * wake
                &&& anchors[5].time.seconds == 60 * bed
                &&& moved_into(
                    anchors[2].time.seconds as int,
                    events.noon_minutes as int,
                    wake + 180,
                    bed - 240,
                )
                &&& events.sunrise_minutes matches Some(sunrise) ==> moved_into(
                    anchors[1].time.seconds as int,
                    sunrise + 45,
                    wake + 90,
                    noon - 60,
                )
                &&& events.sunrise_minutes is None ==> anchors[1].time.seconds == 60 * (wake + 90)
                &&& events.sunset_minutes matches Some(sunset) ==> moved_into(
                    anchors[3].time.seconds as int,
                    sunset + 45,
                    noon + 60,
                    bed - 150,
                ) && moved_into(
                    anchors[4].time.seconds as int,
                    sunset + 120,
                    turning + 60,
                    bed - 90,
                )
                &&& events.sunset_minutes is None ==> anchors[3].time.seconds == 60 * (bed - 180)
                    && anchors[4].time.seconds == 60 * (bed - 90)
            }),
    {
        self.lemma_times(events);
        self.moments_are_apart(events);
    }

    /// Where the sun sets earlier by some minutes, the evening turns earlier by as many,
    /// as long as both evenings lie within the bounds of the day.
    pub proof fn earlier_sunsets_bring_earlier_evenings(self, a: SolarEvents, b: SolarEvents)
        requires
            self.wf(),
            self.day_anchors(a) is Ok,
            self.day_anchors(b) is Ok,
            a.noon_minutes == b.noon_minutes,
            a.sunset_minutes is Some,
            b.sunset_minutes is Some,
            a.sunset_minutes->0 <= b.sunset_minutes->0,
            self.day_anchors(a)->Ok_0[2].time.seconds + 3_600 <= 60 * (a.sunset_minutes->0 + 45),
            b.sunset_minutes->0 + 45 <= self.bed_time.seconds as int / 60 - 150,
        ensures
            self.day_anchors(b)->Ok_0[3].time.seconds - self.day_anchors(a)->Ok_0[3].time.seconds
                == 60 * (b.sunset_minutes->0 - a.sunset_minutes->0),
            b.sunset_minutes->0 + 120 <= self.bed_time.seconds as int / 60 - 90
                ==> self.day_anchors(b)->Ok_0[4].time.seconds
                - self.day_anchors(a)->Ok_0[4].time.seconds == 60 * (b.sunset_minutes->0 - a.sunset_minutes->0),
    {
        self.days_follow_the_sun(a);
        self.days_follow_the_sun(b);
    }
}

/// The parts of the way from night to day.
proof fn lemma_factors()
    ensures
        near(Double { bits: 0 }, 0real, 1real),
        near(Double { bits: ONE }, 1real, 1real),
        near(Double { bits: MORNING_BRIGHTNESS }, 72real / 100real, 1real),
        near(Double { bits: MORNING_COLOR }, 65real / 100real, 1real),
        near(Double { bits: EVENING_COLOR }, 55real / 100real, 1real),
        near(Double { bits: DUSK_BRIGHTNESS }, 60real / 100real, 1real),
        near(Double { bits: DUSK_COLOR }, 25real / 100real, 1real),
{
    lemma2_to64();
    lemma2_to64_rest();
    crate::light::lemma_small();
    lemma_powers();
    let e = eps();
    assert(e * 9_007_199_254_740_992real == 1real) by (nonlinear_arith)
        requires
            e == 1real / 9_007_199_254_740_992real,
    ;
    assert(1real * e == e);
    assert(ONE == crate::value::ONE);
    assert(power(54) == 18_014_398_509_481_984real);
    Double::exact_amount(Double { bits: DUSK_COLOR }, 1021, 25real / 100real);
    lemma_factor(Double { bits: MORNING_BRIGHTNESS }, 6_485_183_463_413_514, 72real / 100real);
    lemma_factor(Double { bits: MORNING_COLOR }, 5_854_679_515_581_645, 65real / 100real);
    lemma_factor(Double { bits: EVENING_COLOR }, 4_953_959_590_107_546, 55real / 100real);
    lemma_factor(Double { bits: DUSK_BRIGHTNESS }, 5_404_319_552_844_595, 60real / 100real);
}

proof fn lemma_factor(a: Double, digits: int, x: real)
    requires
        !a.negative(),
        a.code() == 1021 * 0x10_0000_0000_0000 + digits,
        4_503_599_627_370_496 <= digits < 9_007_199_254_740_992,
        size_of(digits as real - x * 9_007_199_254_740_992real) <= 1real,
    ensures
        near(a, x, 1real),
{
    lemma2_to64();
    lemma2_to64_rest();
    lemma_powers();
    Double::known_amount(a, 1022);
    let y = a.amount();
    let n = digits as real;
    let e = eps();
    assert(a.code() % 0x10_0000_0000_0000 == digits - 4_503_599_627_370_496);
    assert(y * 9_007_199_254_740_992real == n);
    assert(e * 9_007_199_254_740_992real == 1real) by (nonlinear_arith)
        requires
            e == 1real / 9_007_199_254_740_992real,
    ;
    assert(y - x <= e && x - y <= e) by (nonlinear_arith)
        requires
            y * 9_007_199_254_740_992real == n,
            n - x * 9_007_199_254_740_992real <= 1real,
            x * 9_007_199_254_740_992real - n <= 1real,
            e * 9_007_199_254_740_992real == 1real,
    ;
    assert(1real * e == e);
}

/// A number part of the way between two.
proof fn lemma_way(low: Double, x: real, kx: real, high: Double, y: real, ky: real, factor: Double, part: real, most: real)
    requires
        near(low, x, kx),
        near(high, y, ky),
        0real <= x <= most,
        0real <= y <= most,
        1real <= most <= 1_000real,
        0real <= kx <= 2_000real,
        0real <= ky <= 2_000real,
        near(factor, part, 1real),
        0real <= part <= 1real,
    ensures
        near(
            crate::solar::part_way(low, high, factor),
            x + part * (y - x),
            2real * kx + ky + 5real * most + 10real,
        ),
{
    let h = y - x;
    crate::amount::near_difference(high, y, ky, low, x, kx, most);
    let gap = high.difference(low);
    let k = ky + kx + most + 1real;
    crate::amount::near_product(gap, h, k, factor, part, 1real, most, 1real);
    let step = gap.product(factor);
    let k2 = k * 1real + 1real * most + most * 1real + 1real;
    assert(k2 == ky + kx + 3real * most + 2real);
    crate::amount::lemma_spread(h, h, part);
    crate::amount::lemma_size_product(part, h);
    crate::amount::lemma_grow_both(part, 1real, size_of(h), size_of(h));
    if h >= 0real {
        crate::amount::lemma_grow_both(part, 1real, h, h);
    } else {
        crate::amount::lemma_grow_both(part, 1real, -h, -h);
        assert(part * (-h) == -(part * h)) by (nonlinear_arith);
    }
    crate::amount::near_sum(low, x, kx, step, part * h, k2, most);
    lemma_powers();
    let all = kx + k2 + most + 1real;
    lemma_grow(all, 2real * kx + ky + 5real * most + 10real, eps());
}

/// A brightness part of the way from night to day.
pub open spec fn mixed(night: real, day: real, part: real) -> real {
    night + part * (day - night)
}

/// A colour temperature part of the way from night to day, in equal steps of mireds.
pub open spec fn mixed_warmth(night: real, day: real, part: real) -> real {
    1_000_000real / mixed(1_000_000real / night, 1_000_000real / day, part)
}

/// A quotient of a million by a number from ten to a thousand.
proof fn lemma_million(a: Double, x: real, k: real)
    requires
        near(a, x, k),
        10real <= x <= 90_000real,
        0real <= k <= 20_000real,
    ensures
        ({
            let q = (Double { bits: MIRED_SCALE }).quotient(a);
            let exact = 1_000_000real / x;
            &&& q.finite()
            &&& size_of(q.amount() - exact) <= 1real / 1_000real
            &&& 11real <= exact <= 100_000real
            &&& k == 0real && 1_000real <= x ==> near(q, exact, 1_001real) && exact <= 1_000real
        }),
{
    crate::light::lemma_small();
    crate::light::lemma_few(k);
    let scale = Double { bits: MIRED_SCALE };
    lemma2_to64();
    lemma2_to64_rest();
    assert(power(33) == 8_589_934_592real);
    Double::exact_amount(scale, 1042, 1_000_000real);
    Double::amounts(a);
    let m = 1_000_000real;
    let y = a.amount();
    assert(y >= 9real);
    let q = m / y;
    let exact = m / x;
    crate::rates::lemma_divided(m, y);
    crate::rates::lemma_divided(m, x);
    lemma_grow(9real, y, 120_000real);
    assert(9real * 120_000real >= m);
    assert(0real * y == 0real && 0real * x == 0real);
    crate::amount::lemma_spread(y, y, 120_000real);
    crate::rates::lemma_cancel_order(q, 120_000real, y);
    crate::rates::lemma_cancel_order(0real, q, y);
    lemma_grow(10real, x, 100_000real);
    crate::amount::lemma_spread(x, x, 100_000real);
    crate::rates::lemma_cancel_order(exact, 100_000real, x);
    lemma_grow(x, 90_000real, 11real);
    crate::amount::lemma_spread(x, x, 11real);
    crate::rates::lemma_cancel_order(11real, exact, x);
    if 1_000real <= x {
        lemma_grow(1_000real, x, 1_000real);
        crate::amount::lemma_spread(x, x, 1_000real);
        crate::rates::lemma_cancel_order(exact, 1_000real, x);
    }
    Double::quotient_amount(scale, a);
    lemma_grow(q, 120_000real, eps());
    // The two quotients lie close together.
    let gap = q - exact;
    assert(gap * y == exact * (x - y)) by (nonlinear_arith)
        requires
            gap == q - exact,
            q * y == m,
            exact * x == m,
    ;
    crate::amount::lemma_size_product(gap, y);
    crate::amount::lemma_size_product(exact, x - y);
    crate::amount::lemma_grow_both(size_of(exact), 100_000real, size_of(x - y), slack() / 2real);
    assert(100_000real * (slack() / 2real) == 1real / 20_000real) by (nonlinear_arith)
        requires
            slack() == 1real / 1_000_000_000real,
    ;
    lemma_grow(9real, y, size_of(gap));
    crate::amount::lemma_spread(y, y, size_of(gap));
    assert(size_of(gap) <= 1real / 180_000real);
    if k == 0real {
        assert(0real * eps() == 0real);
        assert(y == x);
        if 1_000real <= x {
            lemma_grow(exact, 1_000real, eps());
            assert(1_001real * eps() == 1_000real * eps() + eps()) by (nonlinear_arith);
        }
    }
}

impl SolarHybridCurve {
    /// One anchor has the light that its parts ask for.
    proof fn lemma_light(
        self,
        minutes: int,
        brightness_factor: u64,
        light_part: real,
        color_factor: u64,
        warmth_part: real,
    )
        requires
            self.night_brightness.wf(),
            self.day_brightness.wf(),
            self.night_kelvin.value.finite(),
            self.day_kelvin.value.finite(),
            1_000real <= self.night_kelvin.value.amount() <= 90_000real,
            1_000real <= self.day_kelvin.value.amount() <= 90_000real,
            near(Double { bits: brightness_factor }, light_part, 1real),
            near(Double { bits: color_factor }, warmth_part, 1real),
            0real <= light_part <= 1real,
            0real <= warmth_part <= 1real,
        ensures
            self.anchored(minutes, brightness_factor, color_factor) matches Ok(anchor) ==> size_of(
                anchor.brightness.value.amount() - mixed(
                    self.night_brightness.value.amount(),
                    self.day_brightness.value.amount(),
                    light_part,
                ),
            ) <= slack() && size_of(
                anchor.color_temperature.value.amount() - mixed_warmth(
                    self.night_kelvin.value.amount(),
                    self.day_kelvin.value.amount(),
                    warmth_part,
                ),
            ) <= 1real / 1_000real,
    {
        let scale = Double { bits: MIRED_SCALE };
        let night = self.night_kelvin.value;
        let day = self.day_kelvin.value;
        assert(0real * eps() == 0real);
        crate::light::lemma_bright(self.night_brightness);
        crate::light::lemma_bright(self.day_brightness);
        lemma_way(
            self.night_brightness.value,
            self.night_brightness.value.amount(),
            0real,
            self.day_brightness.value,
            self.day_brightness.value.amount(),
            0real,
            Double { bits: brightness_factor },
            light_part,
            1real,
        );
        crate::light::lemma_few(15real);
        lemma_million(night, night.amount(), 0real);
        lemma_million(day, day.amount(), 0real);
        let x = 1_000_000real / night.amount();
        let y = 1_000_000real / day.amount();
        let factor = Double { bits: color_factor };
        lemma_way(
            scale.quotient(night),
            x,
            1_001real,
            scale.quotient(day),
            y,
            1_001real,
            factor,
            warmth_part,
            1_000real,
        );
        let h = y - x;
        if h >= 0real {
            crate::amount::lemma_grow_both(warmth_part, 1real, h, h);
        } else {
            crate::amount::lemma_grow_both(warmth_part, 1real, -h, -h);
            assert(warmth_part * (-h) == -(warmth_part * h)) by (nonlinear_arith);
        }
        let mired = crate::solar::part_way(scale.quotient(night), scale.quotient(day), factor);
        lemma_million(mired, mixed(x, y, warmth_part), 8_013real);
        reveal(SolarHybridCurve::anchored);
    }

    /// A generated day goes from the night's light over most of the day's light in the
    /// morning to all of it at noon, then first to a warmer colour, then to less light,
    /// and back to the night's.
    pub proof fn days_mix_night_and_day(self, events: SolarEvents)
        requires
            self.wf(),
            self.day_anchors(events) is Ok,
            self.night_brightness.wf(),
            self.day_brightness.wf(),
            self.night_kelvin.value.finite(),
            self.day_kelvin.value.finite(),
            1_000real <= self.night_kelvin.value.amount() <= 90_000real,
            1_000real <= self.day_kelvin.value.amount() <= 90_000real,
        ensures
            ({
                let anchors = self.day_anchors(events)->Ok_0;
                &&& anchors.len() == 6
                &&& self.lit(anchors[0], 0real, 0real)
                &&& self.lit(anchors[1], 72real / 100real, 65real / 100real)
                &&& self.lit(anchors[2], 1real, 1real)
                &&& self.lit(anchors[3], 1real, 55real / 100real)
                &&& self.lit(anchors[4], 60real / 100real, 25real / 100real)
                &&& self.lit(anchors[5], 0real, 0real)
            }),
    {
        let results = self.anchors_for(events);
        let anchors = self.day_anchors(events)->Ok_0;
        let moments = self.moments(events);
        crate::solar::lemma_collected_all(results, anchors);
        lemma_factors();
        self.lemma_light(moments.wake, 0, 0real, 0, 0real);
        self.lemma_light(
            moments.morning_ready,
            MORNING_BRIGHTNESS,
            72real / 100real,
            MORNING_COLOR,
            65real / 100real,
        );
        self.lemma_light(moments.noon, ONE, 1real, ONE, 1real);
        self.lemma_light(moments.color_evening, ONE, 1real, EVENING_COLOR, 55real / 100real);
        self.lemma_light(
            moments.brightness_evening,
            DUSK_BRIGHTNESS,
            60real / 100real,
            DUSK_COLOR,
            25real / 100real,
        );
        self.lemma_light(moments.bed, 0, 0real, 0, 0real);
        assert(results[0] is Ok && results[1] is Ok && results[2] is Ok && results[3] is Ok
            && results[4] is Ok && results[5] is Ok);
    }

    /// An anchor has parts of the day's brightness and colour.
    pub open spec fn lit(
        self,
        anchor: crate::curve::CurveAnchor,
        light_part: real,
        warmth_part: real,
    ) -> bool {
        &&& size_of(
            anchor.brightness.value.amount() - mixed(
                self.night_brightness.value.amount(),
                self.day_brightness.value.amount(),
                light_part,
            ),
        ) <= slack()
        &&& size_of(
            anchor.color_temperature.value.amount() - mixed_warmth(
                self.night_kelvin.value.amount(),
                self.day_kelvin.value.amount(),
                warmth_part,
            ),
        ) <= 1real / 1_000real
    }
}

} // verus!
