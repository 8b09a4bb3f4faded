//! The smooth course that a curve takes from anchor to anchor.
use crate::amount::{eps, lemma_grow, lemma_grow_both, lemma_powers, lemma_spread, near, power, size_of, tiny};
use crate::curve::{CircadianCurve, CurveAnchor, CurveError, CurvePoint, TimeOfDay};
use crate::double::Double;
use crate::smooth::{
    broad, close, cubic, left_slope_weight, left_weight, right_slope_weight, right_weight,
};
use vstd::arithmetic::power2::*;
use vstd::prelude::*;

verus! {

/// The anchor after anchor `i`, around midnight.
pub open spec fn next_of(anchors: Seq<CurveAnchor>, i: int) -> int {
    if i + 1 == anchors.len() {
        0
    } else {
        i + 1
    }
}

/// The anchor before anchor `i`, around midnight.
pub open spec fn last_of(anchors: Seq<CurveAnchor>, i: int) -> int {
    if i == 0 {
        anchors.len() - 1
    } else {
        i - 1
    }
}

/// Seconds from anchor `i` to the next.
pub open spec fn span(anchors: Seq<CurveAnchor>, i: int) -> int {
    let from = anchors[i].time.seconds as int;
    let to = anchors[next_of(anchors, i)].time.seconds as int;
    if to > from {
        to - from
    } else {
        to - from + 86_400
    }
}

/// The time of day some seconds after anchor `i`.
pub open spec fn moment(anchors: Seq<CurveAnchor>, i: int, after: int) -> TimeOfDay {
    TimeOfDay { seconds: ((anchors[i].time.seconds + after) % 86_400) as u32 }
}

/// What the anchors amount to.
pub open spec fn lights(anchors: Seq<CurveAnchor>) -> Seq<real> {
    Seq::new(anchors.len(), |i: int| anchors[i].brightness.value.amount())
}

pub open spec fn warmths(anchors: Seq<CurveAnchor>) -> Seq<real> {
    Seq::new(anchors.len(), |i: int| anchors[i].color_temperature.value.amount())
}

/// How much the values rise in a second, on the straight line to the next anchor.
pub open spec fn rise(anchors: Seq<CurveAnchor>, values: Seq<real>, i: int) -> real {
    (values[next_of(anchors, i)] - values[i]) / (span(anchors, i) as real)
}

/// The slope of the smooth course at anchor `i`.
pub open spec fn slope(anchors: Seq<CurveAnchor>, values: Seq<real>, i: int) -> real {
    let before = last_of(anchors, i);
    crate::slopes::mean_slope(
        span(anchors, before) as real,
        span(anchors, i) as real,
        rise(anchors, values, before),
        rise(anchors, values, i),
    )
}

/// The smooth course some seconds after anchor `i`.
pub open spec fn course(anchors: Seq<CurveAnchor>, values: Seq<real>, i: int, after: int) -> real {
    let width = span(anchors, i) as real;
    let next = next_of(anchors, i);
    cubic(
        after as real / width,
        values[i],
        width * slope(anchors, values, i),
        values[next],
        width * slope(anchors, values, next),
    )
}

/// What the values of anchors can be: shown, and none larger than `most`.
spec fn valued(anchors: Seq<CurveAnchor>, values: Seq<Double>, most: real) -> bool {
    &&& anchors.len() >= 3
    &&& values.len() == anchors.len()
    &&& crate::curve::strictly_timed(anchors)
    &&& forall|n: int| 0 <= n < anchors.len() ==> (#[trigger] anchors[n]).time.wf()
    &&& forall|n: int|
        0 <= n < values.len() ==> crate::curve::shown(#[trigger] values[n])
            && values[n].amount() <= most
    &&& broad(most)
}

spec fn amounts_of(values: Seq<Double>) -> Seq<real> {
    Seq::new(values.len(), |i: int| values[i].amount())
}

/// Spans are at least a second and at most a day.
proof fn lemma_span(anchors: Seq<CurveAnchor>, i: int)
    requires
        anchors.len() >= 2,
        crate::curve::strictly_timed(anchors),
        forall|n: int| 0 <= n < anchors.len() ==> (#[trigger] anchors[n]).time.wf(),
        0 <= i < anchors.len(),
    ensures
        1 <= span(anchors, i) <= 86_400,
        span(anchors, i) == crate::curve::width_seconds(anchors, i),
        next_of(anchors, i) == crate::curve::following(i, anchors.len() as int),
        last_of(anchors, i) == crate::curve::preceding(i, anchors.len() as int),
        next_of(anchors, last_of(anchors, i)) == i,
        0 <= next_of(anchors, i) < anchors.len(),
        0 <= last_of(anchors, i) < anchors.len(),
{
    let j = next_of(anchors, i);
    assert(anchors[i].time.wf() && anchors[j].time.wf());
    if i < j {
        assert(anchors[i].time.seconds < anchors[j].time.seconds);
    } else {
        assert(anchors[j].time.seconds < anchors[i].time.seconds);
    }
}

/// The computed slope at an anchor follows the exact one.
proof fn lemma_slope(anchors: Seq<CurveAnchor>, values: Seq<Double>, i: int, most: real)
    requires
        valued(anchors, values, most),
        0 <= i < anchors.len(),
    ensures
        ({
            let found = crate::curve::slope_at(anchors, values, i);
            let ideal = slope(anchors, amounts_of(values), i);
            let p = rise(anchors, amounts_of(values), last_of(anchors, i));
            let n = rise(anchors, amounts_of(values), i);
            &&& found.finite()
            &&& size_of(found.amount() - ideal) <= (30real * eps()) * size_of(ideal)
                + crate::smooth::faint()
            &&& size_of(ideal) <= 3real * size_of(p)
            &&& size_of(ideal) <= 3real * size_of(n)
            &&& p >= 0real ==> ideal >= 0real
            &&& p <= 0real ==> ideal <= 0real
            &&& n >= 0real ==> ideal >= 0real
            &&& n <= 0real ==> ideal <= 0real
        }),
{
    let before = last_of(anchors, i);
    let after = next_of(anchors, i);
    lemma_span(anchors, i);
    lemma_span(anchors, before);
    assert(crate::curve::shown(values[before]) && crate::curve::shown(values[i])
        && crate::curve::shown(values[after]));
    let w = span(anchors, before) as nat;
    let v = span(anchors, i) as nat;
    crate::rates::lemma_rise(values[before], values[i], w, most);
    crate::rates::lemma_rise(values[i], values[after], v, most);
    crate::slopes::close_mean(
        w,
        v,
        crate::curve::secant_at(anchors, values, before),
        crate::curve::secant_at(anchors, values, i),
        rise(anchors, amounts_of(values), before),
        rise(anchors, amounts_of(values), i),
    );
}

/// The exact rises at both ends of a segment are tame.
proof fn lemma_rises(anchors: Seq<CurveAnchor>, values: Seq<Double>, i: int, most: real)
    requires
        valued(anchors, values, most),
        0 <= i < anchors.len(),
    ensures
        ({
            let w = span(anchors, i) as real;
            let j = next_of(anchors, i);
            let v = amounts_of(values);
            &&& crate::evenness::tame(v[i], w * slope(anchors, v, i), v[j], w * slope(anchors, v, j))
            &&& size_of(w * slope(anchors, v, i)) <= 3real * most
            &&& size_of(w * slope(anchors, v, j)) <= 3real * most
            &&& 0real <= v[i] <= most
            &&& 0real <= v[j] <= most
        }),
{
    let w = span(anchors, i) as real;
    let j = next_of(anchors, i);
    let v = amounts_of(values);
    lemma_span(anchors, i);
    lemma_span(anchors, j);
    lemma_slope(anchors, values, i, most);
    lemma_slope(anchors, values, j, most);
    assert(last_of(anchors, j) == i);
    assert(crate::curve::shown(values[i]) && crate::curve::shown(values[j]));
    Double::amounts(values[i]);
    Double::amounts(values[j]);
    crate::rates::lemma_rise(values[i], values[j], span(anchors, i) as nat, most);
    let p = rise(anchors, v, i);
    let h = v[j] - v[i];
    crate::rates::lemma_scaled(w, slope(anchors, v, i), p, h);
    crate::rates::lemma_scaled(w, slope(anchors, v, j), p, h);
}

/// Where a time stands among the anchors.
proof fn lemma_place(anchors: Seq<CurveAnchor>, i: int, after: int)
    requires
        anchors.len() >= 2,
        crate::curve::strictly_timed(anchors),
        forall|n: int| 0 <= n < anchors.len() ==> (#[trigger] anchors[n]).time.wf(),
        0 <= i < anchors.len(),
        0 <= after <= span(anchors, i),
    ensures
        ({
            let time = moment(anchors, i, after);
            let j = next_of(anchors, i);
            &&& time.wf()
            &&& after == 0 ==> crate::curve::neighbors(anchors, time) == (i, i)
            &&& after == span(anchors, i) ==> crate::curve::neighbors(anchors, time) == (j, j)
            &&& 0 < after < span(anchors, i) ==> crate::curve::neighbors(anchors, time) == (i, j)
                && crate::curve::elapsed(anchors[i].time, time) == after
                && crate::curve::cyclic_seconds(anchors[i].time, anchors[j].time) == span(
                anchors,
                i,
            )
        }),
{
    let time = moment(anchors, i, after);
    let j = next_of(anchors, i);
    let count = anchors.len() as int;
    let s = time.seconds;
    lemma_span(anchors, i);
    assert(anchors[i].time.wf() && anchors[j].time.wf());
    assert(anchors[0].time.seconds < anchors[count - 1].time.seconds);
    if after == 0 {
        assert forall|k: int| 0 <= k < i implies (#[trigger] anchors[k]).time.seconds < s by {}
        crate::curve::lemma_earlier(anchors, s, i);
    } else if after == span(anchors, i) {
        assert(s == anchors[j].time.seconds);
        assert forall|k: int| 0 <= k < j implies (#[trigger] anchors[k]).time.seconds < s by {}
        crate::curve::lemma_earlier(anchors, s, j);
    } else if i + 1 < count {
        assert forall|k: int| 0 <= k < i + 1 implies (#[trigger] anchors[k]).time.seconds < s by {
            if k < i {
                assert(anchors[k].time.seconds < anchors[i].time.seconds);
            }
        }
        crate::curve::lemma_earlier(anchors, s, i + 1);
    } else if anchors[i].time.seconds < s {
        assert forall|k: int| 0 <= k < count implies (#[trigger] anchors[k]).time.seconds < s by {
            if k < i {
                assert(anchors[k].time.seconds < anchors[i].time.seconds);
            }
        }
        crate::curve::lemma_earlier(anchors, s, count);
    } else {
        crate::curve::lemma_earlier(anchors, s, 0);
    }
}

/// The computed values keep to the smooth course.
#[verifier::spinoff_prover]
proof fn lemma_course(
    anchors: Seq<CurveAnchor>,
    values: Seq<Double>,
    i: int,
    after: int,
    most: real,
)
    requires
        valued(anchors, values, most),
        0 <= i < anchors.len(),
        0 <= after <= span(anchors, i),
    ensures
        ({
            let value = crate::curve::interpolated(
                anchors,
                values,
                crate::curve::slopes_of(anchors, values),
                moment(anchors, i, after),
            );
            &&& value.finite()
            &&& close(
                value.amount(),
                course(anchors, amounts_of(values), i, after),
                1_000real,
                most,
            )
        }),
{
    let j = next_of(anchors, i);
    let time = moment(anchors, i, after);
    let v = amounts_of(values);
    let width = span(anchors, i) as nat;
    let w = width as real;
    let x = after as real / w;
    let slopes = crate::curve::slopes_of(anchors, values);
    let lr = w * slope(anchors, v, i);
    let rr = w * slope(anchors, v, j);
    lemma_span(anchors, i);
    lemma_place(anchors, i, after);
    lemma_rises(anchors, values, i, most);
    lemma_slope(anchors, values, i, most);
    lemma_slope(anchors, values, j, most);
    crate::evenness::lemma_at_ends(v[i], lr, v[j], rr);
    crate::smooth::lemma_broad(most);
    lemma_grow_both(1_000real * eps(), 1_000real * eps(), most, most);
    assert(crate::curve::shown(values[i]) && crate::curve::shown(values[j]));
    if after == 0 {
        crate::rates::lemma_divided(0real, w);
        assert(0real * w == 0real);
        crate::rates::lemma_cancel(x, 0real, w);
    } else if after == span(anchors, i) {
        crate::rates::lemma_divided(w, w);
        assert(1real * w == w);
        crate::rates::lemma_cancel(x, 1real, w);
    } else {
        crate::rates::lemma_part_near(after as nat, width);
        let position = Double::of_nat(after as nat).quotient(Double::of_nat(width));
        let free = crate::curve::hermite(
            position,
            Double::of_nat(width),
            values[i],
            slopes[i],
            values[j],
            slopes[j],
        );
        crate::smooth::close_cubic(
            position,
            x,
            width,
            values[i],
            slopes[i],
            slope(anchors, v, i),
            values[j],
            slopes[j],
            slope(anchors, v, j),
            most,
        );
        crate::evenness::lemma_tame(0real, x, v[i], lr, v[j], rr);
        crate::evenness::lemma_tame(x, 1real, v[i], lr, v[j], rr);
        let exact = cubic(x, v[i], lr, v[j], rr);
        Double::amounts_keep_order(values[j], values[i]);
        Double::amounts_keep_order(values[i], values[j]);
        let low = crate::curve::lesser(values[i], values[j]);
        let high = crate::curve::greater(values[i], values[j]);
        Double::amounts_keep_order(free, low);
        Double::amounts_keep_order(high, free);
        assert(low.amount() <= exact <= high.amount());
    }
}

/// Anchors of a curve as values.
proof fn lemma_valued(curve: CircadianCurve, most: real)
    requires
        curve.wf(),
        curve.anchors@.len() >= 3,
        forall|n: int| 0 <= n < curve.anchors@.len() ==> (#[trigger] curve.anchors@[n]).wf(),
        forall|n: int|
            0 <= n < curve.anchors@.len() ==> (
            #[trigger] curve.anchors@[n]).color_temperature.value.amount() <= most,
        broad(most),
    ensures
        valued(curve.anchors@, crate::curve::brightness_values(curve.anchors@), 1real),
        valued(curve.anchors@, crate::curve::kelvin_values(curve.anchors@), most),
        amounts_of(crate::curve::brightness_values(curve.anchors@)) == lights(curve.anchors@),
        amounts_of(crate::curve::kelvin_values(curve.anchors@)) == warmths(curve.anchors@),
{
    let anchors = curve.anchors@;
    let light = crate::curve::brightness_values(anchors);
    let warmth = crate::curve::kelvin_values(anchors);
    crate::smooth::lemma_broad_one();
    assert forall|n: int| 0 <= n < light.len() implies crate::curve::shown(#[trigger] light[n])
        && light[n].amount() <= 1real by {
        assert(anchors[n].wf());
        crate::smooth::lemma_one();
        Double::amounts_keep_order(light[n], Double { bits: crate::curve::ONE });
    }
    assert forall|n: int| 0 <= n < warmth.len() implies crate::curve::shown(#[trigger] warmth[n])
        && warmth[n].amount() <= most by {
        assert(anchors[n].wf());
    }
    assert(amounts_of(light) =~= lights(anchors));
    assert(amounts_of(warmth) =~= warmths(anchors));
}

impl CircadianCurve {
    /// From anchor to anchor, a curve through three or more keeps to a smooth cubic that
    /// passes through the values with the mean slope of the neighbouring secants, and
    /// with none at an extremum. Some hundred roundings are left.
    pub proof fn keeps_to_its_course(self, i: int, after: int, most: real)
        requires
            self.wf(),
            self.anchors@.len() >= 3,
            forall|n: int| 0 <= n < self.anchors@.len() ==> (#[trigger] self.anchors@[n]).wf(),
            forall|n: int|
                0 <= n < self.anchors@.len() ==> (
                #[trigger] self.anchors@[n]).color_temperature.value.amount() <= most,
            broad(most),
            0 <= i < self.anchors@.len(),
            0 <= after <= span(self.anchors@, i),
        ensures
            self.point_at(moment(self.anchors@, i, after)) matches Ok(point) && close(
                point.brightness.value.amount(),
                course(self.anchors@, lights(self.anchors@), i, after),
                1_000real,
                1real,
            ) && close(
                point.color_temperature.value.amount(),
                course(self.anchors@, warmths(self.anchors@), i, after),
                1_000real,
                most,
            ),
    {
        let anchors = self.anchors@;
        let light = crate::curve::brightness_values(anchors);
        let time = moment(anchors, i, after);
        lemma_valued(self, most);
        lemma_course(anchors, light, i, after, 1real);
        lemma_course(anchors, crate::curve::kelvin_values(anchors), i, after, most);
        lemma_place(anchors, i, after);
        self.shows_at_all_times(time);
        let value = crate::curve::interpolated(
            anchors,
            light,
            crate::curve::slopes_of(anchors, light),
            time,
        );
        self.lemma_bounded(time);
        lemma_unit(value);
    }

    /// A brightness on the curve needs no bounding.
    proof fn lemma_bounded(self, time: TimeOfDay)
        requires
            self.wf(),
            time.wf(),
            forall|n: int| 0 <= n < self.anchors@.len() ==> (#[trigger] self.anchors@[n]).wf(),
        ensures
            ({
                let light = crate::curve::brightness_values(self.anchors@);
                let value = crate::curve::interpolated(
                    self.anchors@,
                    light,
                    crate::curve::slopes_of(self.anchors@, light),
                    time,
                );
                &&& value.finite()
                &&& 0real <= value.amount() <= 1real
            }),
    {
        let anchors = self.anchors@;
        let light = crate::curve::brightness_values(anchors);
        assert forall|n: int| 0 <= n < light.len() implies crate::curve::shown(#[trigger] light[n])
            && light[n].at_most(Double { bits: crate::curve::ONE }) by {
            assert(anchors[n].wf());
        }
        crate::curve::lemma_interpolated(anchors, light, time);
        let (left, right) = crate::curve::neighbors(anchors, time);
        assert(crate::curve::shown(light[left]) && crate::curve::shown(light[right]));
        crate::smooth::lemma_one();
        let value = crate::curve::interpolated(
            anchors,
            light,
            crate::curve::slopes_of(anchors, light),
            time,
        );
        Double::amounts(Double { bits: 0 });
        Double::amounts_keep_order(Double { bits: 0 }, value);
        Double::amounts_keep_order(value, Double { bits: crate::curve::ONE });
    }

    /// From one second to the next, a curve through three or more anchors changes by no
    /// more than three times what the straight line between the two anchors does, and
    /// always towards the later anchor. Some hundred roundings are left.
    pub proof fn has_no_jumps(self, i: int, after: int, most: real)
        requires
            self.wf(),
            self.anchors@.len() >= 3,
            forall|n: int| 0 <= n < self.anchors@.len() ==> (#[trigger] self.anchors@[n]).wf(),
            forall|n: int|
                0 <= n < self.anchors@.len() ==> (
                #[trigger] self.anchors@[n]).color_temperature.value.amount() <= most,
            broad(most),
            0 <= i < self.anchors@.len(),
            0 <= after < span(self.anchors@, i),
        ensures
            ({
                let a = self.anchors@[i];
                let b = self.anchors@[next_of(self.anchors@, i)];
                let width = span(self.anchors@, i) as real;
                let before = self.point_at(moment(self.anchors@, i, after))->Ok_0;
                let later = self.point_at(moment(self.anchors@, i, after + 1))->Ok_0;
                &&& self.point_at(moment(self.anchors@, i, after)) is Ok
                &&& self.point_at(moment(self.anchors@, i, after + 1)) is Ok
                &&& steady(
                    a.brightness.value.amount(),
                    b.brightness.value.amount(),
                    before.brightness.value.amount(),
                    later.brightness.value.amount(),
                    width,
                    2_000real * eps(),
                )
                &&& steady(
                    a.color_temperature.value.amount(),
                    b.color_temperature.value.amount(),
                    before.color_temperature.value.amount(),
                    later.color_temperature.value.amount(),
                    width,
                    (2_000real * eps()) * most,
                )
            }),
    {
        let anchors = self.anchors@;
        lemma_valued(self, most);
        self.keeps_to_its_course(i, after, most);
        self.keeps_to_its_course(i, after + 1, most);
        lemma_steady(anchors, crate::curve::brightness_values(anchors), i, after, 1real);
        lemma_steady(anchors, crate::curve::kelvin_values(anchors), i, after, most);
        let e = eps();
        assert((1_000real * e) * 1real == 1_000real * e);
        assert((2_000real * e) * most == 2real * ((1_000real * e) * most)) by (nonlinear_arith);
    }

    /// Halfway between two anchors that are both extrema, the curve shows the mean of
    /// their values. Some hundred roundings are left.
    pub proof fn is_halfway_in_the_middle(self, i: int, after: int, most: real)
        requires
            self.wf(),
            self.anchors@.len() >= 3,
            forall|n: int| 0 <= n < self.anchors@.len() ==> (#[trigger] self.anchors@[n]).wf(),
            forall|n: int|
                0 <= n < self.anchors@.len() ==> (
                #[trigger] self.anchors@[n]).color_temperature.value.amount() <= most,
            broad(most),
            0 <= i < self.anchors@.len(),
            2 * after == span(self.anchors@, i),
            turning(self.anchors@, lights(self.anchors@), i),
            turning(self.anchors@, lights(self.anchors@), next_of(self.anchors@, i)),
            turning(self.anchors@, warmths(self.anchors@), i),
            turning(self.anchors@, warmths(self.anchors@), next_of(self.anchors@, i)),
        ensures
            ({
                let a = self.anchors@[i];
                let b = self.anchors@[next_of(self.anchors@, i)];
                self.point_at(moment(self.anchors@, i, after)) matches Ok(point) && close(
                    point.brightness.value.amount(),
                    (a.brightness.value.amount() + b.brightness.value.amount()) / 2real,
                    1_000real,
                    1real,
                ) && close(
                    point.color_temperature.value.amount(),
                    (a.color_temperature.value.amount() + b.color_temperature.value.amount())
                        / 2real,
                    1_000real,
                    most,
                )
            }),
    {
        let anchors = self.anchors@;
        lemma_span(anchors, i);
        self.keeps_to_its_course(i, after, most);
        lemma_middle(anchors, lights(anchors), i, after);
        lemma_middle(anchors, warmths(anchors), i, after);
    }
}

/// The values turn at anchor `i`: it is no lower, or no higher, than both neighbours.
pub open spec fn turning(anchors: Seq<CurveAnchor>, values: Seq<real>, i: int) -> bool {
    let before = values[last_of(anchors, i)];
    let after = values[next_of(anchors, i)];
    (before <= values[i] && after <= values[i]) || (before >= values[i] && after >= values[i])
}

/// A step from `before` to `later` on the way from `a` to `b`, one of `width` steps: at most
/// three times an even step and not the other way, but for the slack.
pub open spec fn steady(a: real, b: real, before: real, later: real, width: real, slack: real) -> bool {
    &&& a <= b ==> -slack <= later - before <= 3real * ((b - a) / width) + slack
    &&& b <= a ==> 3real * ((b - a) / width) - slack <= later - before <= slack
}

proof fn lemma_steady(
    anchors: Seq<CurveAnchor>,
    values: Seq<Double>,
    i: int,
    after: int,
    most: real,
)
    requires
        valued(anchors, values, most),
        0 <= i < anchors.len(),
        0 <= after < span(anchors, i),
    ensures
        ({
            let v = amounts_of(values);
            steady(
                v[i],
                v[next_of(anchors, i)],
                course(anchors, v, i, after),
                course(anchors, v, i, after + 1),
                span(anchors, i) as real,
                0real,
            )
        }),
{
    let v = amounts_of(values);
    let j = next_of(anchors, i);
    let w = span(anchors, i) as real;
    lemma_span(anchors, i);
    lemma_rises(anchors, values, i, most);
    assert((after + 1) as real == after as real + 1real);
    lemma_one_step(
        after as real,
        w,
        v[i],
        w * slope(anchors, v, i),
        v[j],
        w * slope(anchors, v, j),
    );
}

/// One of `w` steps along a tame cubic.
proof fn lemma_one_step(a: real, w: real, left: real, left_rise: real, right: real, right_rise: real)
    requires
        0real <= a,
        a + 1real <= w,
        crate::evenness::tame(left, left_rise, right, right_rise),
    ensures
        steady(
            left,
            right,
            cubic(a / w, left, left_rise, right, right_rise),
            cubic((a + 1real) / w, left, left_rise, right, right_rise),
            w,
            0real,
        ),
{
    let x = a / w;
    let y = (a + 1real) / w;
    let z = 1real / w;
    crate::rates::lemma_divided(a, w);
    crate::rates::lemma_divided(a + 1real, w);
    crate::rates::lemma_divided(1real, w);
    assert(0real * w == 0real && 1real * w == w);
    crate::rates::lemma_cancel_order(0real, x, w);
    crate::rates::lemma_cancel_order(x, y, w);
    crate::rates::lemma_cancel_order(y, 1real, w);
    lemma_spread(y, x, w);
    crate::rates::lemma_cancel(y - x, z, w);
    crate::evenness::lemma_tame(x, y, left, left_rise, right, right_rise);
    let h = right - left;
    let q = h / w;
    crate::rates::lemma_divided(h, w);
    let three = 3real * h;
    assert((three * z) * w == three * (z * w)) by (nonlinear_arith);
    assert((3real * q) * w == 3real * (q * w)) by (nonlinear_arith);
    assert(three * 1real == three);
    crate::rates::lemma_cancel(three * z, 3real * q, w);
}

/// Halfway between two turns.
proof fn lemma_middle(anchors: Seq<CurveAnchor>, values: Seq<real>, i: int, after: int)
    requires
        anchors.len() >= 3,
        crate::curve::strictly_timed(anchors),
        forall|n: int| 0 <= n < anchors.len() ==> (#[trigger] anchors[n]).time.wf(),
        0 <= i < anchors.len(),
        2 * after == span(anchors, i),
        turning(anchors, values, i),
        turning(anchors, values, next_of(anchors, i)),
    ensures
        course(anchors, values, i, after) == (values[i] + values[next_of(anchors, i)]) / 2real,
{
    let j = next_of(anchors, i);
    let w = span(anchors, i) as real;
    let x = after as real / w;
    lemma_span(anchors, i);
    lemma_flat(anchors, values, i);
    lemma_span(anchors, j);
    lemma_flat(anchors, values, j);
    let a = after as real;
    crate::rates::lemma_divided(a, w);
    assert((1real / 2real) * w == a) by (nonlinear_arith)
        requires
            2real * a == w,
    ;
    crate::rates::lemma_cancel(x, 1real / 2real, w);
    assert(w * 0real == 0real) by (nonlinear_arith);
    assert((1real / 2real) * (1real / 2real) == 1real / 4real) by (nonlinear_arith);
    assert((1real / 4real) * (1real / 2real) == 1real / 8real) by (nonlinear_arith);
    assert(x * x == 1real / 4real && (x * x) * x == 1real / 8real);
    assert(left_weight(x) == 1real / 2real && right_weight(x) == 1real / 2real);
    let l = values[i];
    let r = values[j];
    assert((1real / 2real) * l == l / 2real) by (nonlinear_arith);
    assert((1real / 2real) * r == r / 2real) by (nonlinear_arith);
    assert(left_slope_weight(x) * 0real == 0real);
    assert(right_slope_weight(x) * 0real == 0real);
}

/// At a turn the slope is none.
proof fn lemma_flat(anchors: Seq<CurveAnchor>, values: Seq<real>, i: int)
    requires
        anchors.len() >= 3,
        crate::curve::strictly_timed(anchors),
        forall|n: int| 0 <= n < anchors.len() ==> (#[trigger] anchors[n]).time.wf(),
        0 <= i < anchors.len(),
        turning(anchors, values, i),
    ensures
        slope(anchors, values, i) == 0real,
{
    let before = last_of(anchors, i);
    let after = next_of(anchors, i);
    lemma_span(anchors, i);
    lemma_span(anchors, before);
    lemma_rise_sign(values[i] - values[before], span(anchors, before) as real);
    lemma_rise_sign(values[after] - values[i], span(anchors, i) as real);
}

proof fn lemma_rise_sign(h: real, w: real)
    requires
        w > 0real,
    ensures
        h >= 0real ==> h / w >= 0real,
        h <= 0real ==> h / w <= 0real,
{
    crate::rates::lemma_divided(h, w);
    assert(0real * w == 0real);
    if h >= 0real {
        crate::rates::lemma_cancel_order(0real, h / w, w);
    }
    if h <= 0real {
        crate::rates::lemma_cancel_order(h / w, 0real, w);
    }
}

/// A number from nothing to one is bounded as it is.
proof fn lemma_unit(value: Double)
    requires
        value.finite(),
        0real <= value.amount() <= 1real,
    ensures
        value.limited(Double { bits: 0 }, Double { bits: crate::value::ONE }) == value,
{
    crate::smooth::lemma_one();
    Double::amounts(Double { bits: 0 });
    Double::amounts_keep_order(value, Double { bits: 0 });
    Double::amounts_keep_order(Double { bits: crate::value::ONE }, value);
}

impl CircadianCurve {
    /// Between two anchors alone, the curve is a straight line either way around the
    /// clock.
    pub proof fn joins_two_anchors_by_lines(self, i: int, after: int)
        requires
            self.wf(),
            self.anchors@.len() == 2,
            forall|n: int| 0 <= n < self.anchors@.len() ==> (#[trigger] self.anchors@[n]).wf(),
            forall|n: int|
                0 <= n < self.anchors@.len() ==> (
                #[trigger] self.anchors@[n]).color_temperature.value.amount() <= 90_000real,
            0 <= i < 2,
            0 <= after <= span(self.anchors@, i),
        ensures
            ({
                let a = self.anchors@[i];
                let b = self.anchors@[next_of(self.anchors@, i)];
                let part = after as real / (span(self.anchors@, i) as real);
                self.point_at(moment(self.anchors@, i, after)) matches Ok(point) && size_of(
                    point.brightness.value.amount() - (a.brightness.value.amount() + part * (
                    b.brightness.value.amount() - a.brightness.value.amount())),
                ) <= crate::light::slack() && size_of(
                    point.color_temperature.value.amount() - (a.color_temperature.value.amount()
                        + part * (b.color_temperature.value.amount()
                        - a.color_temperature.value.amount())),
                ) <= crate::light::slack()
            }),
    {
        let anchors = self.anchors@;
        let light = crate::curve::brightness_values(anchors);
        let warmth = crate::curve::kelvin_values(anchors);
        let time = moment(anchors, i, after);
        lemma_span(anchors, i);
        lemma_place(anchors, i, after);
        assert forall|n: int| 0 <= n < 2 implies crate::curve::shown(#[trigger] light[n])
            && light[n].amount() <= 1real by {
            assert(anchors[n].wf());
            crate::smooth::lemma_one();
            Double::amounts_keep_order(light[n], Double { bits: crate::curve::ONE });
        }
        assert forall|n: int| 0 <= n < 2 implies crate::curve::shown(#[trigger] warmth[n])
            && warmth[n].amount() <= 90_000real by {
            assert(anchors[n].wf());
        }
        lemma_line(anchors, light, i, after, 1real);
        lemma_line(anchors, warmth, i, after, 90_000real);
        self.shows_at_all_times(time);
        self.lemma_bounded(time);
        lemma_unit(
            crate::curve::interpolated(
                anchors,
                light,
                crate::curve::slopes_of(anchors, light),
                time,
            ),
        );
    }
}

/// The values of two anchors are joined by a line.
proof fn lemma_line(
    anchors: Seq<CurveAnchor>,
    values: Seq<Double>,
    i: int,
    after: int,
    most: real,
)
    requires
        anchors.len() == 2,
        values.len() == 2,
        crate::curve::strictly_timed(anchors),
        forall|n: int| 0 <= n < anchors.len() ==> (#[trigger] anchors[n]).time.wf(),
        forall|n: int|
            0 <= n < values.len() ==> crate::curve::shown(#[trigger] values[n])
                && values[n].amount() <= most,
        1real <= most <= 90_000real,
        0 <= i < 2,
        0 <= after <= span(anchors, i),
    ensures
        ({
            let a = values[i].amount();
            let b = values[next_of(anchors, i)].amount();
            let part = after as real / (span(anchors, i) as real);
            let value = crate::curve::interpolated(
                anchors,
                values,
                crate::curve::slopes_of(anchors, values),
                moment(anchors, i, after),
            );
            value.finite() && size_of(value.amount() - (a + part * (b - a)))
                <= crate::light::slack()
        }),
{
    let j = next_of(anchors, i);
    let width = span(anchors, i) as nat;
    let w = width as real;
    let x = after as real / w;
    lemma_span(anchors, i);
    lemma_place(anchors, i, after);
    assert(crate::curve::shown(values[i]) && crate::curve::shown(values[j]));
    Double::amounts(values[i]);
    Double::amounts(values[j]);
    let a = values[i].amount();
    let b = values[j].amount();
    if after == 0 {
        crate::rates::lemma_divided(0real, w);
        assert(0real * w == 0real);
        crate::rates::lemma_cancel(x, 0real, w);
        assert(0real * (b - a) == 0real);
    } else if after == span(anchors, i) {
        crate::rates::lemma_divided(w, w);
        assert(1real * w == w);
        crate::rates::lemma_cancel(x, 1real, w);
        assert(1real * (b - a) == b - a);
    } else {
        let position = Double::of_nat(after as nat).quotient(Double::of_nat(width));
        crate::rates::lemma_part_near(after as nat, width);
        lemma_powers();
        lemma_grow(2real, 8real, eps());
        crate::light::lemma_blend(values[i], values[j], position, x, most);
        let free = crate::state::blend(values[i], values[j], position);
        Double::amounts_keep_order(values[j], values[i]);
        Double::amounts_keep_order(values[i], values[j]);
        let low = crate::curve::lesser(values[i], values[j]);
        let high = crate::curve::greater(values[i], values[j]);
        Double::amounts_keep_order(free, low);
        Double::amounts_keep_order(high, free);
    }
}

} // verus!
