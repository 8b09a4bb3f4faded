//! What light a scope shows and when a lamp shows what is wanted.
use crate::amount::{
    eps, lemma_grow, lemma_powers, lemma_spread, near, power, size_of, tiny,
};
use crate::color::ColorComparisonPolicy;
use crate::curve::CurvePoint;
use crate::double::Double;
use crate::overlay::OverlayEffect;
use crate::reconcile::{BRIGHTNESS_STEP, KELVIN_TOLERANCE};
use crate::state::{CircadianBaseline, CurveMode, MonotonicTime, ScopeState, UserOffsets};
use crate::value::{
    Brightness, Capabilities, DeviceTarget, Kelvin, KelvinRange, LayeredLightTarget, LightTarget,
};
use vstd::arithmetic::power2::*;
use vstd::prelude::*;

verus! {

/// A billionth: more than the roundings here can be off.
pub open spec fn slack() -> real {
    1real / 1_000_000_000real
}

pub(crate) proof fn lemma_small()
    ensures
        0real < eps() <= 1real / 9_000_000_000_000_000real,
        0real < tiny() <= eps() / 1_000real,
        power(1000) >= 1_000_000_000_000_000real,
        (Double { bits: 0 }).finite(),
        (Double { bits: 0 }).amount() == 0real,
        (Double { bits: crate::value::ONE }).finite(),
        (Double { bits: crate::value::ONE }).amount() == 1real,
{
    lemma_powers();
    lemma2_to64();
    lemma_pow2_strictly_increases(64, 1000);
    crate::smooth::lemma_broad_one();
    crate::smooth::lemma_broad(1real);
    crate::smooth::lemma_one();
    Double::amounts(Double { bits: 0 });
}

/// So many roundings are less than the slack.
pub(crate) proof fn lemma_few(k: real)
    requires
        0real <= k <= 2_000_000real,
    ensures
        k * eps() <= slack() / 2real,
{
    lemma_small();
    lemma_grow(k, 2_000_000real, eps());
}

impl Double {
    /// A limited number lies within the limits: it is the number itself if that does,
    /// and the limit that it passes otherwise.
    pub proof fn limits_are_kept(a: Double, low: Double, high: Double)
        requires
            a.finite(),
            low.finite(),
            high.finite(),
            low.amount() <= high.amount(),
        ensures
            a.limited(low, high).finite(),
            low.amount() <= a.limited(low, high).amount() <= high.amount(),
            low.amount() <= a.amount() <= high.amount() ==> a.limited(low, high).amount()
                == a.amount(),
            a.amount() <= low.amount() ==> a.limited(low, high).amount() == low.amount(),
            high.amount() <= a.amount() ==> a.limited(low, high).amount() == high.amount(),
    {
        Double::amounts_keep_order(a, low);
        Double::amounts_keep_order(high, a);
    }
}

/// A lamp follows what it can of a target: power, brightness and colour as they are, and
/// a colour temperature as near as its range allows, where it shows no colour.
pub proof fn lamps_follow_what_they_can(capabilities: Capabilities, target: LightTarget)
    requires
        capabilities.color_temperature matches Some(range) ==> range.wf(),
        target.color_temperature matches Some(kelvin) ==> kelvin.wf(),
    ensures
        ({
            let shown = capabilities.degraded(target);
            &&& shown.on == (if capabilities.on_off {
                Some(target.on)
            } else {
                None
            })
            &&& shown.brightness == (if capabilities.dimming {
                target.brightness
            } else {
                None
            })
            &&& shown.color matches Some(color) ==> target.color == Some(color) && shown.color_temperature is None
            &&& shown.color_temperature matches Some(kelvin) ==> {
                let range = capabilities.color_temperature->0;
                let wanted = target.color_temperature->0.value.amount();
                &&& capabilities.color_temperature is Some
                &&& target.color_temperature is Some
                &&& range.min.value.amount() <= kelvin.value.amount() <= range.max.value.amount()
                &&& range.min.value.amount() <= wanted <= range.max.value.amount()
                    ==> kelvin.value.amount() == wanted
                &&& wanted <= range.min.value.amount() ==> kelvin.value.amount()
                    == range.min.value.amount()
                &&& range.max.value.amount() <= wanted ==> kelvin.value.amount()
                    == range.max.value.amount()
            }
            &&& capabilities.color_temperature is Some && target.color_temperature is Some
                && shown.color is None ==> shown.color_temperature is Some
        }),
{
    if let Some(range) = capabilities.color_temperature {
        if let Some(kelvin) = target.color_temperature {
            Double::amounts_keep_order(range.min.value, range.max.value);
            Double::limits_are_kept(kelvin.value, range.min.value, range.max.value);
        }
    }
}

/// Sizes of the tolerances.
proof fn lemma_tolerances()
    ensures
        (Double { bits: BRIGHTNESS_STEP }).finite(),
        size_of((Double { bits: BRIGHTNESS_STEP }).amount() - 1real / 254real) <= eps(),
        (Double { bits: KELVIN_TOLERANCE }).finite(),
        size_of((Double { bits: KELVIN_TOLERANCE }).amount() - 1real / 100real) <= eps(),
{
    lemma2_to64();
    lemma2_to64_rest();
    lemma_powers();
    let e = eps();
    assert(e * 9_007_199_254_740_992real == 1real) by (nonlinear_arith)
        requires
            e == 1real / 9_007_199_254_740_992real,
    ;
    Double::known_amount(Double { bits: BRIGHTNESS_STEP }, 1015);
    Double::known_amount(Double { bits: KELVIN_TOLERANCE }, 1016);
    let x = (Double { bits: BRIGHTNESS_STEP }).amount();
    let y = (Double { bits: KELVIN_TOLERANCE }).amount();
    assert((Double { bits: BRIGHTNESS_STEP }).code() % 0x10_0000_0000_0000 == 35_461_414_388_744);
    assert((Double { bits: KELVIN_TOLERANCE }).code() % 0x10_0000_0000_0000
        == 1_261_007_895_663_739);
    assert(power(60) == 1_152_921_504_606_846_976real);
    assert(power(59) == 576_460_752_303_423_488real);
    assert(x * 1_152_921_504_606_846_976real == 4_539_061_041_759_240real);
    assert(y * 576_460_752_303_423_488real == 5_764_607_523_034_235real);
    assert(x - 1real / 254real <= e && 1real / 254real - x <= e) by (nonlinear_arith)
        requires
            x * 1_152_921_504_606_846_976real == 4_539_061_041_759_240real,
            e * 9_007_199_254_740_992real == 1real,
    ;
    assert(y - 1real / 100real <= e && 1real / 100real - y <= e) by (nonlinear_arith)
        requires
            y * 576_460_752_303_423_488real == 5_764_607_523_034_235real,
            e * 9_007_199_254_740_992real == 1real,
    ;
}

/// How far apart two numbers are, as it is computed.
proof fn lemma_apart(a: Double, b: Double, most: real)
    requires
        a.finite(),
        b.finite(),
        size_of(a.amount() - b.amount()) <= most,
        0real <= most <= 1_000_000real,
    ensures
        a.difference(b).magnitude().finite(),
        size_of(a.difference(b).magnitude().amount() - size_of(a.amount() - b.amount())) <= slack()
            / 2real,
{
    lemma_small();
    Double::difference_amount(a, b);
    Double::magnitude_amount(a.difference(b));
    lemma_grow(size_of(a.amount() - b.amount()), most, eps());
    lemma_few(most + 1real);
    lemma_spread(most, 1real, eps());
}

/// A lamp is in sync if it reports the power that is wanted, the brightness to one of 254
/// steps and the colour temperature to a hundredth, and only then. A billionth either way
/// is left to rounding. Nothing else is compared of a target without colour.
pub proof fn lamps_in_sync_show_what_is_wanted(
    wanted: DeviceTarget,
    seen: DeviceTarget,
    policy: ColorComparisonPolicy,
)
    requires
        wanted.on is Some,
        wanted.brightness matches Some(brightness) ==> brightness.wf(),
        seen.brightness matches Some(brightness) ==> brightness.wf(),
        wanted.color_temperature matches Some(kelvin) ==> kelvin.value.finite() && 0real
            <= kelvin.value.amount() <= 1_000_000real,
        seen.color_temperature matches Some(kelvin) ==> kelvin.value.finite() && 0real
            <= kelvin.value.amount() <= 1_000_000real,
    ensures
        crate::reconcile::synchronized(Some(wanted), Some(seen), policy) ==> {
            &&& seen.on == wanted.on
            &&& wanted.brightness matches Some(a) ==> (seen.brightness matches Some(b) && size_of(
                a.value.amount() - b.value.amount(),
            ) <= 1real / 254real + slack())
            &&& wanted.color_temperature matches Some(a) ==> (
            seen.color_temperature matches Some(b) && size_of(a.value.amount() - b.value.amount())
                <= a.value.amount() / 100real + slack())
            &&& wanted.color is Some ==> seen.color is Some
        },
        wanted.color is None && seen.on == wanted.on && (wanted.brightness matches Some(a) ==> (
        seen.brightness matches Some(b) && size_of(a.value.amount() - b.value.amount()) <= 1real
            / 254real - slack())) && (wanted.color_temperature matches Some(a) ==> (
        seen.color_temperature matches Some(b) && size_of(a.value.amount() - b.value.amount())
            <= a.value.amount() / 100real - slack())) ==> crate::reconcile::synchronized(
            Some(wanted),
            Some(seen),
            policy,
        ),
        !crate::reconcile::synchronized(Some(wanted), None, policy),
{
    lemma_small();
    lemma_tolerances();
    lemma_few(1real);
    if let Some(a) = wanted.brightness {
        if let Some(b) = seen.brightness {
            lemma_bright(a);
            lemma_bright(b);
            lemma_apart(a.value, b.value, 1real);
            Double::amounts_keep_order(
                a.value.difference(b.value).magnitude(),
                Double { bits: BRIGHTNESS_STEP },
            );
        }
    }
    if let Some(a) = wanted.color_temperature {
        if let Some(b) = seen.color_temperature {
            lemma_apart(a.value, b.value, 1_000_000real);
            lemma_hundredth(a.value);
            Double::amounts_keep_order(
                a.value.difference(b.value).magnitude(),
                a.value.product(Double { bits: KELVIN_TOLERANCE }),
            );
        }
    }
}

pub(crate) proof fn lemma_bright(brightness: Brightness)
    requires
        brightness.wf(),
    ensures
        brightness.value.finite(),
        0real <= brightness.value.amount() <= 1real,
{
    lemma_small();
    Double::amounts_keep_order(Double { bits: 0 }, brightness.value);
    Double::amounts_keep_order(brightness.value, Double { bits: crate::value::ONE });
}

/// A hundredth of a colour temperature.
proof fn lemma_hundredth(a: Double)
    requires
        a.finite(),
        0real <= a.amount() <= 1_000_000real,
    ensures
        a.product(Double { bits: KELVIN_TOLERANCE }).finite(),
        size_of(
            a.product(Double { bits: KELVIN_TOLERANCE }).amount() - a.amount() / 100real,
        ) <= slack() / 2real,
{
    lemma_small();
    lemma_tolerances();
    let x = a.amount();
    let h = (Double { bits: KELVIN_TOLERANCE }).amount();
    let e = eps();
    assert(size_of(h) <= 1real && h >= 0real);
    crate::amount::lemma_product_error(x, x, 0real, h, 1real / 100real, e, 1_000_000real, 1real);
    assert(0real * 1real == 0real && 0real * e == 0real);
    assert(x * (1real / 100real) == x / 100real) by (nonlinear_arith);
    let z = x * h;
    assert(size_of(z - x / 100real) <= 1_000_000real * e);
    assert(size_of(z) <= 1_000_000real);
    Double::product_amount(a, Double { bits: KELVIN_TOLERANCE });
    lemma_grow(size_of(z), 1_000_000real, e);
    lemma_few(2_000_000real);
}

/// Offsets are added to the light that a scope would show without them.
pub proof fn offsets_are_added(state: ScopeState, baseline: CircadianBaseline)
    requires
        baseline.brightness.wf(),
        baseline.color_temperature.value.finite(),
        0real <= baseline.color_temperature.value.amount() <= 1_000_000real,
        state.offsets.wf(),
        size_of(state.offsets.brightness.amount()) <= 1_000real,
        size_of(state.offsets.color_temperature_kelvin.amount()) <= 1_000_000real,
    ensures
        ({
            let layers = state.layers_of(baseline);
            &&& layers.on == state.on
            &&& layers.color is None
            &&& layers.brightness matches Some(light) && light.finite() && size_of(
                light.amount() - (baseline.brightness.value.amount()
                    + state.offsets.brightness.amount()),
            ) <= slack()
            &&& layers.color_temperature_kelvin matches Some(kelvin) && kelvin.finite() && size_of(
                kelvin.amount() - (baseline.color_temperature.value.amount()
                    + state.offsets.color_temperature_kelvin.amount()),
            ) <= slack()
        }),
{
    lemma_bright(baseline.brightness);
    lemma_added(baseline.brightness.value, state.offsets.brightness, 2_000real);
    lemma_added(
        baseline.color_temperature.value,
        state.offsets.color_temperature_kelvin,
        2_000_000real,
    );
}

proof fn lemma_added(a: Double, b: Double, most: real)
    requires
        a.finite(),
        b.finite(),
        size_of(a.amount() + b.amount()) <= most,
        0real <= most <= 2_000_000real,
    ensures
        a.sum(b).finite(),
        size_of(a.sum(b).amount() - (a.amount() + b.amount())) <= slack(),
{
    lemma_small();
    Double::sum_amount(a, b);
    lemma_grow(size_of(a.amount() + b.amount()), most, eps());
    lemma_few(most);
}

/// A step of an offset adds to it, and to it alone.
pub proof fn offsets_move_by_their_steps(offsets: UserOffsets, brightness: Double, kelvin: Double)
    requires
        offsets.wf(),
        brightness.finite(),
        kelvin.finite(),
        size_of(offsets.brightness.amount()) <= 1_000_000real,
        size_of(offsets.color_temperature_kelvin.amount()) <= 1_000_000real,
        size_of(brightness.amount()) <= 1_000_000real,
        size_of(kelvin.amount()) <= 1_000_000real,
    ensures
        ({
            let moved = offsets.moved(brightness, kelvin);
            &&& moved.wf()
            &&& size_of(
                moved.brightness.amount() - (offsets.brightness.amount() + brightness.amount()),
            ) <= slack()
            &&& size_of(
                moved.color_temperature_kelvin.amount() - (
                offsets.color_temperature_kelvin.amount() + kelvin.amount()),
            ) <= slack()
        }),
{
    lemma_added(offsets.brightness, brightness, 2_000_000real);
    lemma_added(offsets.color_temperature_kelvin, kelvin, 2_000_000real);
}

/// A passing change of brightness or of colour temperature adds to that and leaves the
/// rest as it is.
pub proof fn passing_changes_are_added(target: LayeredLightTarget, delta: Double)
    requires
        delta.finite(),
        size_of(delta.amount()) <= 1_000_000real,
        target.brightness matches Some(light) ==> light.finite() && size_of(light.amount())
            <= 1_000_000real,
        target.color_temperature_kelvin matches Some(kelvin) ==> kelvin.finite() && size_of(
            kelvin.amount(),
        ) <= 1_000_000real,
    ensures
        (OverlayEffect::BrightnessDelta(delta)).applied(target) matches Ok(next) && next.on
            == target.on && next.color_temperature_kelvin == target.color_temperature_kelvin
            && next.color == target.color && next.transition_ms == target.transition_ms && (
        target.brightness is None ==> next.brightness is None) && (
        target.brightness matches Some(light) ==> (next.brightness matches Some(found) && size_of(
            found.amount() - (light.amount() + delta.amount()),
        ) <= slack())),
        (OverlayEffect::ColorTemperatureDelta(delta)).applied(target) matches Ok(next) && next.on
            == target.on && next.brightness == target.brightness && next.color == target.color
            && next.transition_ms == target.transition_ms && (
        target.color_temperature_kelvin is None ==> next.color_temperature_kelvin is None) && (
        target.color_temperature_kelvin matches Some(kelvin) ==> (
        next.color_temperature_kelvin matches Some(found) && size_of(
            found.amount() - (kelvin.amount() + delta.amount()),
        ) <= slack())),
{
    if let Some(light) = target.brightness {
        lemma_added(light, delta, 2_000_000real);
    }
    if let Some(kelvin) = target.color_temperature_kelvin {
        lemma_added(kelvin, delta, 2_000_000real);
    }
}

/// A number part of the way between two.
pub(crate) proof fn lemma_blend(from: Double, to: Double, progress: Double, part: real, most: real)
    requires
        from.finite(),
        to.finite(),
        0real <= from.amount() <= most,
        0real <= to.amount() <= most,
        1real <= most <= 90_000real,
        near(progress, part, 8real),
        0real <= part <= 1real,
    ensures
        ({
            let reached = crate::state::blend(from, to, progress);
            let exact = from.amount() + part * (to.amount() - from.amount());
            &&& reached.finite()
            &&& size_of(reached.amount() - exact) <= slack()
            &&& 0real <= exact <= most
            &&& from.amount() <= to.amount() ==> from.amount() <= exact <= to.amount()
            &&& to.amount() <= from.amount() ==> to.amount() <= exact <= from.amount()
        }),
{
    let a = from.amount();
    let b = to.amount();
    let h = b - a;
    assert(0real * eps() == 0real);
    assert(near(from, a, 0real) && near(to, b, 0real));
    crate::amount::near_difference(to, b, 0real, from, a, 0real, most);
    let gap = to.difference(from);
    assert(near(gap, h, most + 1real));
    crate::amount::near_product(progress, part, 8real, gap, h, most + 1real, 1real, most);
    let k = 8real * most + (most + 1real) * 1real + 1real * most + 1real;
    assert(k == 10real * most + 2real);
    let step = progress.product(gap);
    assert(near(step, part * h, 10real * most + 2real));
    crate::amount::lemma_size_product(part, h);
    crate::amount::lemma_grow_both(part, 1real, size_of(h), size_of(h));
    if h >= 0real {
        crate::amount::lemma_grow_both(part, 1real, h, h);
    } else {
        crate::amount::lemma_grow_both(part, 1real, -h, -h);
        assert(part * (-h) == -(part * h)) by (nonlinear_arith);
    }
    crate::amount::near_sum(from, a, 0real, step, part * h, 10real * most + 2real, most);
    lemma_few(11real * most + 3real);
    assert(0real + (10real * most + 2real) + most + 1real == 11real * most + 3real);
}

/// How far a span of time has passed, as it is computed.
proof fn lemma_passed(now: Double, start: Double, span: Double)
    requires
        now.finite(),
        start.finite(),
        span.finite(),
        0real <= start.amount() <= now.amount() <= 1_000_000_000_000real,
        1real / 1_000real <= span.amount(),
    ensures
        ({
            let progress = now.difference(start).quotient(span);
            let part = (now.amount() - start.amount()) / span.amount();
            &&& progress.finite()
            &&& part >= 0real
            &&& size_of(progress.amount() - part) <= (3real * eps()) * part + eps()
        }),
{
    lemma_small();
    let e = eps();
    let t = tiny();
    let d = now.amount() - start.amount();
    let w = span.amount();
    Double::amounts(span);
    Double::difference_amount(now, start);
    let g = now.difference(start);
    let p = d / w;
    let q = g.amount() / w;
    crate::rates::lemma_divided(d, w);
    crate::rates::lemma_divided(g.amount(), w);
    assert(0real * w == 0real);
    crate::rates::lemma_cancel_order(0real, p, w);
    let gap = q - p;
    lemma_spread(q, p, w);
    crate::amount::lemma_size_product(gap, w);
    assert(size_of(gap) * w <= (p * w) * e + t);
    assert((p * w) * e == (p * e) * w) by (nonlinear_arith);
    lemma_grow(1real / 1_000real, w, 1_000real * t);
    let t3 = 1_000real * t;
    assert((1real / 1_000real) * t3 == t) by (nonlinear_arith)
        requires
            t3 == 1_000real * t,
    ;
    lemma_spread(w, w, t3);
    lemma_spread(p * e, t3, w);
    crate::rates::lemma_cancel_order(size_of(gap), p * e + t3, w);
    // The quotient is not too large.
    lemma_grow(1real / 1_000real, w, 1_000_000_000_000_000real);
    lemma_spread(w, w, 1_000_000_000_000_000real);
    assert(p <= 1_000_000_000_000_000real) by {
        let big = 1_000_000_000_000_000real;
        assert((1real / 1_000real) * big == 1_000_000_000_000real);
        crate::rates::lemma_cancel_order(p, big, w);
    }
    lemma_grow(e, 1real / 1_000real, p);
    lemma_spread(e, e, p);
    assert((1real / 1_000real) * p == p / 1_000real) by (nonlinear_arith);
    assert(size_of(q) <= 2real * p + t3);
    lemma_pow2_wide();
    Double::quotient_amount(g, span);
    lemma_grow(size_of(q), p + p * e + t3, e);
    lemma_spread(p + p * e, t3, e);
    lemma_spread(p, p * e, e);
    crate::amount::lemma_grow_both(p, p, e, e);
    lemma_grow(e, 1real / 1_000real, p * e);
    lemma_spread(e, e, p * e);
    assert((1real / 1_000real) * (p * e) == (p * e) / 1_000real) by (nonlinear_arith);
    lemma_grow(e, 1real, t3);
    lemma_spread(e, e, t3);
    assert((3real * e) * p == 3real * (p * e)) by (nonlinear_arith);
    lemma_thousands();
}

/// Thousands of what is next to nothing.
proof fn lemma_thousands()
    ensures
        4_000real * tiny() <= eps(),
{
    lemma_powers();
    lemma_small();
    let e = eps();
    lemma_grow(e, 1real / 4_000real, e);
    assert((1real / 4_000real) * e == e / 4_000real) by (nonlinear_arith);
}

proof fn lemma_pow2_wide()
    ensures
        power(1000) >= 1_000_000_000_000_000_000_000_000_000_000real,
{
    lemma2_to64();
    lemma2_to64_rest();
    lemma_pow2_adds(64, 64);
    crate::amount::lemma_real_product(pow2(64) as int, pow2(64) as int);
    lemma_pow2_strictly_increases(128, 1000);
    assert(power(64) == 18_446_744_073_709_551_616real);
    assert(power(128) == 18_446_744_073_709_551_616real * 18_446_744_073_709_551_616real);
}

/// A scope that was let go returns to its curve evenly: after a part of the time it shows
/// the light as far between the old light and the curve, and when the time is over it
/// shows the curve.
#[verifier::spinoff_prover]
pub proof fn returns_to_the_curve_evenly(
    state: ScopeState,
    live: CurvePoint,
    now: MonotonicTime,
)
    requires
        state.mode is Converging,
        now.value.finite(),
        state.mode->started_at.value.finite(),
        0real <= state.mode->started_at.value.amount() <= now.value.amount()
            <= 1_000_000_000_000real,
        state.mode->duration.value.finite(),
        1real / 1_000real <= state.mode->duration.value.amount(),
        state.mode->from.brightness.wf(),
        live.brightness.wf(),
        state.mode->from.color_temperature.value.finite(),
        live.color_temperature.value.finite(),
        2real <= state.mode->from.color_temperature.value.amount() <= 90_000real,
        2real <= live.color_temperature.value.amount() <= 90_000real,
    ensures
        ({
            let part = (now.value.amount() - state.mode->started_at.value.amount())
                / state.mode->duration.value.amount();
            let from = state.mode->from;
            &&& part >= 1real + slack() ==> state.baseline(live, now) == Ok::<
                (CircadianBaseline, bool),
                crate::state::StateError,
            >((CircadianBaseline::of(live), true))
            &&& part <= 1real - slack() ==> (state.baseline(live, now) matches Ok((shown, arrived))
                && !arrived && size_of(
                shown.brightness.value.amount() - (from.brightness.value.amount() + part * (
                live.brightness.value.amount() - from.brightness.value.amount())),
            ) <= slack() && size_of(
                shown.color_temperature.value.amount() - (from.color_temperature.value.amount()
                    + part * (live.color_temperature.value.amount()
                    - from.color_temperature.value.amount())),
            ) <= slack())
        }),
{
    let from = state.mode->from;
    let start = state.mode->started_at.value;
    let span = state.mode->duration.value;
    let progress = now.value.difference(start).quotient(span);
    let part = (now.value.amount() - start.amount()) / span.amount();
    let one = Double { bits: crate::state::ONE };
    lemma_small();
    assert(crate::state::ONE == crate::value::ONE);
    lemma_passed(now.value, start, span);
    Double::amounts_keep_order(now.value, start);
    Double::amounts_keep_order(one, progress);
    let e = eps();
    if part >= 1real + slack() {
        lemma_grow(3real * e, slack() / 8real, part);
        lemma_close_to(part);
    } else if part <= 1real - slack() {
        lemma_grow(part, 1real, 3real * e);
        lemma_spread(part, part, 3real * e);
        assert(near(progress, part, 8real));
        lemma_bright(from.brightness);
        lemma_bright(live.brightness);
        lemma_blend(from.brightness.value, live.brightness.value, progress, part, 1real);
        lemma_blend(
            from.color_temperature.value,
            live.color_temperature.value,
            progress,
            part,
            90_000real,
        );
        let light = crate::state::blend(from.brightness.value, live.brightness.value, progress);
        let warmth = crate::state::blend(
            from.color_temperature.value,
            live.color_temperature.value,
            progress,
        );
        Double::limits_are_kept(light, Double { bits: 0 }, Double { bits: crate::value::ONE });
        lemma_kelvin(warmth);
    }
}

/// What is more than one by some is still more than one with a little less.
proof fn lemma_close_to(part: real)
    requires
        part >= 1real + slack(),
    ensures
        (slack() / 8real) * part + slack() / 8real <= part - 1real,
{
    let s = slack() / 8real;
    lemma_spread(part - 1real, 1real, s);
    lemma_grow(s, 1real / 2real, part - 1real);
    lemma_spread(s, s, part - 1real);
    let h = part - 1real;
    assert((1real / 2real) * h == h / 2real) by (nonlinear_arith);
}

/// From one kelvin to a hundred thousand, a colour temperature is valid.
proof fn lemma_kelvin(value: Double)
    requires
        value.finite(),
        1real <= value.amount() <= 100_000real,
    ensures
        Kelvin::checked(value) is Ok,
{
    lemma_small();
    let scale = Double { bits: crate::value::MIRED_SCALE };
    lemma2_to64();
    lemma2_to64_rest();
    assert(power(33) == 8_589_934_592real);
    Double::exact_amount(scale, 1042, 1_000_000real);
    Double::amounts(value);
    Double::amounts_keep_order(value, Double { bits: 0 });
    let x = value.amount();
    let q = 1_000_000real / x;
    crate::rates::lemma_divided(1_000_000real, x);
    lemma_grow(1real, x, 1_000_000real);
    assert(1_000_000real * 1real == 1_000_000real && 0real * x == 0real);
    crate::rates::lemma_cancel_order(q, 1_000_000real, x);
    crate::rates::lemma_cancel_order(0real, q, x);
    Double::quotient_amount(scale, value);
}

} // verus!
