//! What commands say to a lamp, and what a lamp's report means.
use crate::amount::{eps, lemma_powers, power, size_of, tiny};
use crate::double::Double;
use crate::json::{DocumentView, FieldView, ItemView, ScalarView};
use crate::value::{Brightness, Color, DeviceTarget, Kelvin};
use crate::zigbee2mqtt::{
    DeviceBinding, MiredRange, Payload, PayloadField, PayloadValue, BRIGHTNESS_SCALE, MILLISECONDS,
    MIRED_SCALE, PERCENT,
};
use vstd::arithmetic::power2::*;
use vstd::prelude::*;

verus! {

/// The word for a power state.
pub open spec fn word(on: bool) -> Seq<char> {
    if on {
        "ON"@
    } else {
        "OFF"@
    }
}

/// The names of the fields differ.
proof fn lemma_names()
    ensures
        "state"@ != "brightness"@,
        "state"@ != "color_temp"@,
        "state"@ != "transition"@,
        "state"@ != "color"@,
        "brightness"@ != "color_temp"@,
        "brightness"@ != "transition"@,
        "brightness"@ != "color"@,
        "color_temp"@ != "transition"@,
        "color_temp"@ != "color"@,
        "transition"@ != "color"@,
        "ON"@ != "OFF"@,
{
    reveal_strlit("state");
    reveal_strlit("brightness");
    reveal_strlit("color_temp");
    reveal_strlit("transition");
    reveal_strlit("color");
    reveal_strlit("ON");
    reveal_strlit("OFF");
    assert("state"@.len() == 5 && "brightness"@.len() == 10 && "color_temp"@.len() == 10
        && "transition"@.len() == 10 && "color"@.len() == 5);
    assert("state"@[0] == 's' && "color"@[0] == 'c' && "brightness"@[0] == 'b'
        && "color_temp"@[0] == 'c' && "transition"@[0] == 't');
    assert("ON"@.len() == 2 && "OFF"@.len() == 3);
}

/// The fields of two payloads in a row.
proof fn lemma_joined(a: Payload, b: Payload)
    ensures
        crate::zigbee2mqtt::outer_items(a + b) == crate::zigbee2mqtt::outer_items(a)
            + crate::zigbee2mqtt::outer_items(b),
        crate::zigbee2mqtt::color_items(a + b) == crate::zigbee2mqtt::color_items(a)
            + crate::zigbee2mqtt::color_items(b),
    decreases b.len(),
{
    if b.len() == 0 {
        assert(a + b =~= a);
        reveal(Seq::filter);
        assert(crate::zigbee2mqtt::outer_items(b) =~= Seq::empty());
        assert(crate::zigbee2mqtt::color_items(b) =~= Seq::empty());
        assert(crate::zigbee2mqtt::outer_items(a) + crate::zigbee2mqtt::outer_items(b)
            =~= crate::zigbee2mqtt::outer_items(a));
        assert(crate::zigbee2mqtt::color_items(a) + crate::zigbee2mqtt::color_items(b)
            =~= crate::zigbee2mqtt::color_items(a));
    } else {
        let rest = b.drop_last();
        let last = b.last();
        lemma_joined(a, rest);
        assert(a + b =~= (a + rest).push(last));
        assert(b =~= rest.push(last));
        crate::zigbee2mqtt::lemma_items_step(a + rest, last);
        crate::zigbee2mqtt::lemma_items_step(rest, last);
        let whole = crate::zigbee2mqtt::outer_items(a) + crate::zigbee2mqtt::outer_items(b);
        let colors = crate::zigbee2mqtt::color_items(a) + crate::zigbee2mqtt::color_items(b);
        assert(whole =~= crate::zigbee2mqtt::outer_items(a + b));
        assert(colors =~= crate::zigbee2mqtt::color_items(a + b));
    }
}

/// The fields of a payload of at most one.
proof fn lemma_one(payload: Payload)
    ensures
        payload.len() == 0 ==> crate::zigbee2mqtt::outer_items(payload).len() == 0
            && crate::zigbee2mqtt::color_items(payload).len() == 0,
        payload.len() == 1 && payload[0].0.path_text().0 is None ==> {
            &&& crate::zigbee2mqtt::outer_items(payload) == seq![
                (payload[0].0.path_text().1, ItemView::Scalar(payload[0].1.shown())),
            ]
            &&& crate::zigbee2mqtt::color_items(payload).len() == 0
        },
{
    reveal(Seq::filter);
    let none: Payload = Seq::empty();
    assert(crate::zigbee2mqtt::outer_items(none) =~= Seq::empty());
    assert(crate::zigbee2mqtt::color_items(none) =~= Seq::empty());
    if payload.len() == 0 {
        assert(payload =~= none);
    }
    if payload.len() == 1 && payload[0].0.path_text().0 is None {
        assert(payload =~= none.push(payload[0]));
        crate::zigbee2mqtt::lemma_items_step(none, payload[0]);
        assert(crate::zigbee2mqtt::outer_items(payload) =~= seq![
            (payload[0].0.path_text().1, ItemView::Scalar(payload[0].1.shown())),
        ]);
    }
}

/// The fields of a colour.
proof fn lemma_color(color: Color)
    ensures
        ({
            let payload = crate::zigbee2mqtt::color_payload(color);
            &&& crate::zigbee2mqtt::outer_items(payload).len() == 0
            &&& crate::zigbee2mqtt::color_items(payload) == match color {
                Color::Xy { x, y } => seq![
                    ("x"@, PayloadValue::Number(x).shown()),
                    ("y"@, PayloadValue::Number(y).shown()),
                ],
                Color::Hs { hue, saturation } => seq![
                    ("hue"@, PayloadValue::Number(hue).shown()),
                    (
                        "saturation"@,
                        PayloadValue::Number(
                            saturation.product(Double { bits: PERCENT }),
                        ).shown(),
                    ),
                ],
            }
        }),
{
    reveal(Seq::filter);
    let none: Payload = Seq::empty();
    let payload = crate::zigbee2mqtt::color_payload(color);
    assert(crate::zigbee2mqtt::outer_items(none) =~= Seq::empty());
    assert(crate::zigbee2mqtt::color_items(none) =~= Seq::empty());
    assert(payload =~= none.push(payload[0]).push(payload[1]));
    crate::zigbee2mqtt::lemma_items_step(none, payload[0]);
    crate::zigbee2mqtt::lemma_items_step(none.push(payload[0]), payload[1]);
    assert(crate::zigbee2mqtt::color_items(payload) =~= match color {
        Color::Xy { x, y } => seq![
            ("x"@, PayloadValue::Number(x).shown()),
            ("y"@, PayloadValue::Number(y).shown()),
        ],
        Color::Hs { hue, saturation } => seq![
            ("hue"@, PayloadValue::Number(hue).shown()),
            (
                "saturation"@,
                PayloadValue::Number(saturation.product(Double { bits: PERCENT })).shown(),
            ),
        ],
    });
}

/// The items of a command's parts, as they are written.
pub open spec fn power_items(on: Option<bool>) -> Seq<(Seq<char>, ItemView)> {
    match on {
        Some(on) => seq![("state"@, ItemView::Scalar(ScalarView::Text(word(on))))],
        None => seq![],
    }
}

proof fn lemma_power_items(on: Option<bool>)
    ensures
        crate::zigbee2mqtt::outer_items(crate::zigbee2mqtt::power_payload(on)) == power_items(on),
        crate::zigbee2mqtt::color_items(crate::zigbee2mqtt::power_payload(on)).len() == 0,
{
    lemma_one(crate::zigbee2mqtt::power_payload(on));
    assert(crate::zigbee2mqtt::outer_items(crate::zigbee2mqtt::power_payload(on)) =~= power_items(
        on,
    ));
}

/// No item has this name.
pub open spec fn unnamed(items: Seq<(Seq<char>, ItemView)>, name: Seq<char>) -> bool {
    forall|k: int| 0 <= k < items.len() ==> (#[trigger] items[k]).0 != name
}

/// A part of a command without a word on power.
proof fn lemma_other_parts(target: DeviceTarget, range: Option<MiredRange>)
    ensures
        unnamed(
            crate::zigbee2mqtt::outer_items(
                crate::zigbee2mqtt::brightness_payload(target.brightness),
            ),
            "state"@,
        ),
        unnamed(
            crate::zigbee2mqtt::outer_items(
                crate::zigbee2mqtt::temperature_payload(target.color_temperature, range),
            ),
            "state"@,
        ),
        unnamed(
            crate::zigbee2mqtt::outer_items(
                crate::zigbee2mqtt::transition_payload(target.transition_ms),
            ),
            "state"@,
        ),
{
    lemma_names();
    lemma_one(crate::zigbee2mqtt::brightness_payload(target.brightness));
    lemma_one(crate::zigbee2mqtt::temperature_payload(target.color_temperature, range));
    lemma_one(crate::zigbee2mqtt::transition_payload(target.transition_ms));
}

/// The object begins with the word on power and has no other.
pub open spec fn says_power(items: Seq<(Seq<char>, ItemView)>, on: Option<bool>) -> bool {
    match on {
        Some(on) => items.len() > 0 && items[0] == (
            "state"@,
            ItemView::Scalar(ScalarView::Text(word(on))),
        ) && unnamed(items.skip(1), "state"@),
        None => unnamed(items, "state"@),
    }
}

/// What comes behind the word on power, and has none, changes nothing of it.
proof fn lemma_says(on: Option<bool>, payload: Payload, rest: Payload)
    requires
        says_power(crate::zigbee2mqtt::outer_items(payload), on),
        unnamed(crate::zigbee2mqtt::outer_items(rest), "state"@),
    ensures
        says_power(crate::zigbee2mqtt::outer_items(payload + rest), on),
        says_power(crate::zigbee2mqtt::layout(payload), on),
{
    lemma_joined(payload, rest);
    lemma_names();
    let a = crate::zigbee2mqtt::outer_items(payload);
    let b = crate::zigbee2mqtt::outer_items(rest);
    let items = a + b;
    let whole = crate::zigbee2mqtt::layout(payload);
    if on is Some {
        assert forall|k: int| 0 <= k < items.skip(1).len() implies (#[trigger] items.skip(1)[k]).0
            != "state"@ by {
            if k + 1 < a.len() {
                assert(items.skip(1)[k] == a.skip(1)[k]);
            } else {
                assert(items.skip(1)[k] == b[k + 1 - a.len()]);
            }
        }
        assert forall|k: int| 0 <= k < whole.skip(1).len() implies (#[trigger] whole.skip(1)[k]).0
            != "state"@ by {
            if k + 1 < a.len() {
                assert(whole.skip(1)[k] == a.skip(1)[k]);
            }
        }
    } else {
        assert forall|k: int| 0 <= k < items.len() implies (#[trigger] items[k]).0 != "state"@ by {
            if k < a.len() {
                assert(items[k] == a[k]);
            } else {
                assert(items[k] == b[k - a.len()]);
            }
        }
        assert forall|k: int| 0 <= k < whole.len() implies (#[trigger] whole[k]).0 != "state"@ by {
            if k < a.len() {
                assert(whole[k] == a[k]);
            }
        }
    }
}

/// A command says `ON` to a lamp that is to be on and `OFF` to one that is to be off,
/// once, in its first message; otherwise it says nothing of power.
pub proof fn commands_say_on_and_off(
    target: DeviceTarget,
    range: Option<MiredRange>,
    single_transition_attribute: bool,
)
    ensures
        crate::zigbee2mqtt::payloads_of(target, range, single_transition_attribute) matches Ok(
            list,
        ) ==> {
            &&& target.on is Some ==> list.len() > 0
            &&& forall|i: int|
                0 <= i < list.len() ==> says_power(
                    crate::zigbee2mqtt::layout((#[trigger] list[i]).0),
                    if i == 0 {
                        target.on
                    } else {
                        None
                    },
                )
        },
{
    let none: Payload = Seq::empty();
    let power_part = crate::zigbee2mqtt::power_payload(target.on);
    let brightness = crate::zigbee2mqtt::brightness_payload(target.brightness);
    let temperature = crate::zigbee2mqtt::temperature_payload(target.color_temperature, range);
    let transition = crate::zigbee2mqtt::transition_payload(target.transition_ms);
    lemma_one(none);
    lemma_power_items(target.on);
    lemma_other_parts(target, range);
    assert(none + power_part =~= power_part);
    assert(none + temperature =~= temperature);
    assert(says_power(crate::zigbee2mqtt::outer_items(power_part), target.on));
    lemma_says(target.on, power_part, brightness);
    let lit = none + power_part + brightness;
    lemma_says(target.on, lit, transition);
    lemma_says(target.on, lit, temperature);
    lemma_says(target.on, lit, none);
    lemma_says(target.on, lit + temperature, transition);
    lemma_says(target.on, lit + temperature + transition, none);
    lemma_says(target.on, lit + transition, none);
    lemma_says(None, temperature, transition);
    lemma_says(None, temperature + transition, none);
    if let Some(color) = target.color {
        let colored = crate::zigbee2mqtt::color_payload(color);
        lemma_color(color);
        lemma_says(target.on, lit, colored);
        lemma_says(target.on, lit + colored, transition);
        lemma_says(target.on, lit + colored + transition, none);
    }
}

/// The scales that numbers are sent in.
proof fn lemma_scales()
    ensures
        (Double { bits: BRIGHTNESS_SCALE }).finite(),
        (Double { bits: BRIGHTNESS_SCALE }).amount() == 254real,
        (Double { bits: PERCENT }).finite(),
        (Double { bits: PERCENT }).amount() == 100real,
        (Double { bits: MILLISECONDS }).finite(),
        (Double { bits: MILLISECONDS }).amount() == 1_000real,
        (Double { bits: MIRED_SCALE }).finite(),
        (Double { bits: MIRED_SCALE }).amount() == 1_000_000real,
        (Double { bits: crate::value::ONE }).finite(),
        (Double { bits: crate::value::ONE }).amount() == 1real,
        (Double { bits: 0 }).amount() == 0real,
        power(1000) >= 1_000_000_000_000_000real,
        0real < eps() <= 1real / 9_000_000_000_000_000real,
        0real < tiny() <= eps() / 1_000real,
{
    lemma2_to64();
    lemma2_to64_rest();
    lemma_powers();
    assert(power(45) == 35_184_372_088_832real);
    assert(power(46) == 70_368_744_177_664real);
    assert(power(43) == 8_796_093_022_208real);
    assert(power(33) == 8_589_934_592real);
    Double::exact_amount(Double { bits: BRIGHTNESS_SCALE }, 1030, 254real);
    Double::exact_amount(Double { bits: PERCENT }, 1029, 100real);
    Double::exact_amount(Double { bits: MILLISECONDS }, 1032, 1_000real);
    Double::exact_amount(Double { bits: MIRED_SCALE }, 1042, 1_000_000real);
    crate::smooth::lemma_one();
    Double::amounts(Double { bits: 0 });
    lemma_pow2_strictly_increases(64, 1000);
    crate::smooth::lemma_broad_one();
    crate::smooth::lemma_broad(1real);
}

/// A billionth: more than the roundings of one number can be off.
pub open spec fn slack() -> real {
    1real / 1_000_000_000real
}

/// A brightness is sent as the nearest of 254 steps.
pub proof fn brightness_is_sent_in_steps(brightness: Brightness)
    requires
        brightness.wf(),
    ensures
        ({
            let payload = crate::zigbee2mqtt::brightness_payload(Some(brightness));
            &&& payload.len() == 1
            &&& payload[0].0 == PayloadField::Brightness
            &&& payload[0].1 matches PayloadValue::Whole(step) && step <= 254 && size_of(
                step as real - 254real * brightness.value.amount(),
            ) <= 1real / 2real + slack()
        }),
{
    lemma_scales();
    let b = brightness.value;
    let scale = Double { bits: BRIGHTNESS_SCALE };
    Double::amounts_keep_order(Double { bits: 0 }, b);
    Double::amounts_keep_order(b, Double { bits: crate::value::ONE });
    let x = b.amount();
    crate::amount::lemma_grow(x, 1real, 254real);
    crate::amount::lemma_grow(0real, x, 254real);
    assert(x * 254real == 254real * x);
    Double::product_amount(b, scale);
    let p = b.product(scale);
    crate::amount::lemma_grow(size_of(x * 254real), 254real, eps());
    lemma_product_sign(b, scale);
    Double::amounts(b);
    lemma_steps(b);
}

/// The steps of a brightness, as they are rounded.
proof fn lemma_steps(b: Double)
    requires
        b.finite(),
        0real <= b.amount() <= 1real,
        size_of(
            b.product(Double { bits: BRIGHTNESS_SCALE }).amount() - 254real * b.amount(),
        ) <= slack(),
        b.product(Double { bits: BRIGHTNESS_SCALE }).finite(),
        b.product(Double { bits: BRIGHTNESS_SCALE }).negative() == b.negative(),
    ensures
        ({
            let step = b.product(Double { bits: BRIGHTNESS_SCALE }).rounded();
            step <= 254 && size_of(step as real - 254real * b.amount()) <= 1real / 2real + slack()
        }),
{
    let p = b.product(Double { bits: BRIGHTNESS_SCALE });
    Double::amounts(b);
    Double::amounts(p);
    if p.negative() {
        assert(b.amount() == 0real);
        assert(p.rounded() == 0);
    } else {
        Double::rounded_amount(p);
        assert(p.rounded() as real <= 254real + 1real / 2real + slack());
        assert(p.rounded() <= 254);
    }
}

/// The sign of a product.
proof fn lemma_product_sign(a: Double, b: Double)
    requires
        a.finite(),
        b.finite(),
    ensures
        a.product(b).negative() == (a.negative() != b.negative()),
{
    Double::product_parts(a, b);
}

/// A colour temperature is sent as the nearest whole mired that the lamp takes.
pub proof fn warmth_is_sent_in_mireds(kelvin: Kelvin, range: MiredRange)
    requires
        kelvin.wf(),
        range.wf(),
        1real <= kelvin.value.amount() <= 1_000_000real,
    ensures
        ({
            let payload = crate::zigbee2mqtt::temperature_payload(Some(kelvin), Some(range));
            let exact = 1_000_000real / kelvin.value.amount();
            &&& payload.len() == 1
            &&& payload[0].0 == PayloadField::ColorTemp
            &&& payload[0].1 matches PayloadValue::Whole(mired) && range.min <= mired <= range.max
                && (range.min < mired < range.max ==> size_of(mired as real - exact) <= 1real
                / 2real + slack()) && (mired == range.min && mired < range.max ==> exact
                <= range.min as real + 1real / 2real + slack()) && (mired == range.max
                && range.min < mired ==> exact >= range.max as real - 1real / 2real - slack())
        }),
{
    lemma_scales();
    let k = kelvin.value;
    let scale = Double { bits: MIRED_SCALE };
    let x = k.amount();
    Double::amounts(k);
    let exact = 1_000_000real / x;
    crate::rates::lemma_divided(1_000_000real, x);
    crate::amount::lemma_grow(1real, x, 1real);
    assert(exact <= 1_000_000real) by {
        assert(1_000_000real * 1real == 1_000_000real);
        crate::amount::lemma_grow(1real, x, 1_000_000real);
        crate::rates::lemma_cancel_order(exact, 1_000_000real, x);
    }
    assert(exact >= 1real) by {
        assert(1real * x == x);
        crate::rates::lemma_cancel_order(1real, exact, x);
    }
    Double::quotient_amount(scale, k);
    let q = scale.quotient(k);
    crate::amount::lemma_grow(exact, 1_000_000real, eps());
    assert(size_of(q.amount() - exact) <= slack());
    Double::amounts(q);
    Double::rounded_amount(q);
    let whole = q.rounded();
    assert(!q.nan());
    assert(crate::value::MIRED_SCALE == MIRED_SCALE);
}

/// A transition is sent in seconds.
pub proof fn transitions_are_sent_in_seconds(milliseconds: u64)
    requires
        milliseconds <= 1_000_000_000,
    ensures
        ({
            let payload = crate::zigbee2mqtt::transition_payload(Some(milliseconds));
            &&& payload.len() == 1
            &&& payload[0].0 == PayloadField::Transition
            &&& payload[0].1 matches PayloadValue::Number(seconds) && seconds.finite() && size_of(
                seconds.amount() - milliseconds as real / 1_000real,
            ) <= slack()
        }),
{
    lemma_scales();
    let n = Double::of_nat(milliseconds as nat);
    let scale = Double { bits: MILLISECONDS };
    Double::counts_are_exact(milliseconds as nat);
    lemma_powers();
    lemma_pow2_pos(1074);
    let u = power(1074);
    let m = milliseconds as real;
    crate::amount::lemma_real_product(milliseconds as int, pow2(1074) as int);
    assert(n.amount() == m) by {
        Double::amounts(n);
        crate::rates::lemma_cancel(n.amount(), m, u);
    }
    Double::amounts(scale);
    let x = m / 1_000real;
    assert(0real <= x <= 1_000_000real);
    Double::quotient_amount(n, scale);
    crate::amount::lemma_grow(x, 1_000_000real, eps());
}

/// A colour is sent as it is, its saturation in percent.
pub proof fn colors_are_sent_as_they_are(color: Color)
    requires
        color.wf(),
    ensures
        ({
            let payload = crate::zigbee2mqtt::color_payload(color);
            &&& payload.len() == 2
            &&& color matches Color::Xy { x, y } ==> payload[0] == (
                PayloadField::ColorX,
                PayloadValue::Number(x),
            ) && payload[1] == (PayloadField::ColorY, PayloadValue::Number(y))
            &&& color matches Color::Hs { hue, saturation } ==> payload[0] == (
                PayloadField::ColorHue,
                PayloadValue::Number(hue),
            ) && payload[1].0 == PayloadField::ColorSaturation && (
            payload[1].1 matches PayloadValue::Number(percent) && percent.finite() && size_of(
                percent.amount() - 100real * saturation.amount(),
            ) <= slack())
        }),
{
    lemma_scales();
    if let Color::Hs { hue, saturation } = color {
        Double::amounts_keep_order(Double { bits: 0 }, saturation);
        Double::amounts_keep_order(saturation, Double { bits: crate::value::ONE });
        let s = saturation.amount();
        assert(s * 100real == 100real * s);
        Double::product_amount(saturation, Double { bits: PERCENT });
        crate::amount::lemma_grow(100real * s, 100real, eps());
    }
}

/// What a report says of a lamp: `ON` is on and `OFF` is off, brightness comes in 254
/// steps, colour temperature in mireds and transitions in seconds.
pub proof fn reports_are_understood(binding: DeviceBinding, document: DocumentView)
    requires
        document.fields is Some,
    ensures
        ({
            let fields = document.fields->0;
            let n = fields.len() as int;
            let state = crate::zigbee2mqtt::field_named(fields, n, "state"@);
            let light = crate::zigbee2mqtt::field_named(fields, n, "brightness"@);
            let read = crate::zigbee2mqtt::state_of(
                binding,
                Ok::<DocumentView, Seq<char>>(document),
            );
            read matches Ok(target) ==> {
                &&& target.on is None <==> state is None
                &&& state matches Some(field) ==> target.on is Some && field.text == Some(
                    word(target.on->0),
                )
                &&& target.brightness is None <==> light is None
                &&& light matches Some(field) ==> target.brightness is Some && (
                field.unsigned matches Some(step) && step <= 254 && size_of(
                    target.brightness->0.value.amount() - step as real / 254real,
                ) <= slack())
            }
        }),
{
    lemma_names();
    lemma_scales();
    let fields = document.fields->0;
    let n = fields.len() as int;
    let light = crate::zigbee2mqtt::field_named(fields, n, "brightness"@);
    if let Some(field) = light {
        if let Some(step) = field.unsigned {
            if step <= 254 {
                lemma_step_amount(step);
            }
        }
    }
}

proof fn lemma_step_amount(step: u64)
    requires
        step <= 254,
    ensures
        size_of(
            Double::of_nat(step as nat).quotient(Double { bits: BRIGHTNESS_SCALE }).amount()
                - step as real / 254real,
        ) <= slack(),
{
    lemma_scales();
    crate::smooth::lemma_count(step as nat);
    let scale = Double { bits: BRIGHTNESS_SCALE };
    Double::amounts(scale);
    let x = step as real / 254real;
    assert(0real <= x <= 1real);
    Double::quotient_amount(Double::of_nat(step as nat), scale);
    crate::amount::lemma_grow(x, 1real, eps());
}

/// A lamp that reports the power it was sent is read to have it: the command that says
/// on or off, read as a report, gives the power of its target.
pub proof fn power_comes_back(
    binding: DeviceBinding,
    target: DeviceTarget,
    range: Option<MiredRange>,
    single_transition_attribute: bool,
    report: DocumentView,
)
    requires
        target.on is Some,
        report.fields is Some,
        crate::zigbee2mqtt::payloads_of(target, range, single_transition_attribute) is Ok,
        ({
            let items = crate::zigbee2mqtt::layout(
                crate::zigbee2mqtt::payloads_of(target, range, single_transition_attribute)->Ok_0[0].0,
            );
            let state = crate::zigbee2mqtt::field_named(
                report.fields->0,
                report.fields->0.len() as int,
                "state"@,
            );
            &&& state is Some
            &&& items[0].1 matches ItemView::Scalar(ScalarView::Text(said)) && state->0.text == Some(
                said,
            )
        }),
    ensures
        crate::zigbee2mqtt::state_of(binding, Ok::<DocumentView, Seq<char>>(report)) matches Ok(
            read,
        ) ==> read.on == target.on,
{
    lemma_names();
    commands_say_on_and_off(target, range, single_transition_attribute);
    reports_are_understood(binding, report);
    let list = crate::zigbee2mqtt::payloads_of(
        target,
        range,
        single_transition_attribute,
    )->Ok_0;
    assert(says_power(crate::zigbee2mqtt::layout(list[0].0), target.on));
}

} // verus!
