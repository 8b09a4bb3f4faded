//! Which way a pulse goes.
use crate::amount::{eps, near, near_difference, near_negated, near_product, near_sum, size_of};
use crate::double::Double;
use crate::light::slack;
use crate::overlay::{AcknowledgementSettings, HALF, ONE, TWO};
use crate::state::CurveToggleOutcome;
use vstd::arithmetic::power2::*;
use vstd::prelude::*;

verus! {

proof fn lemma_marks()
    ensures
        near(Double { bits: HALF }, 1real / 2real, 0real),
        near(Double { bits: TWO }, 2real, 0real),
        (Double { bits: HALF }).amount() == 1real / 2real,
{
    lemma2_to64();
    lemma2_to64_rest();
    assert(crate::amount::power(53) == 9_007_199_254_740_992real);
    assert(crate::amount::power(51) == 2_251_799_813_685_248real);
    Double::exact_amount(Double { bits: HALF }, 1022, 1real / 2real);
    Double::exact_amount(Double { bits: TWO }, 1024, 2real);
    assert(0real * eps() == 0real);
}

/// A sum kept within nought and one is off by no more than before.
proof fn lemma_kept(a: Double, x: real)
    requires
        near(a, x, 10real),
        0real <= x <= 1real,
    ensures
        size_of(a.limited(Double { bits: 0 }, Double { bits: ONE }).amount() - x) <= slack(),
{
    crate::light::lemma_small();
    crate::light::lemma_few(10real);
    Double::limits_are_kept(a, Double { bits: 0 }, Double { bits: ONE });
}

proof fn lemma_looser(a: Double, x: real, k: real)
    requires
        near(a, x, k),
        k <= 10real,
    ensures
        near(a, x, 10real),
{
    crate::light::lemma_small();
    crate::amount::lemma_grow(k, 10real, eps());
}

impl AcknowledgementSettings {
    /// Freezing pulses by the amplitude toward the middle. Unfreezing pulses as far away
    /// from it, or twice as far toward it where there is no room.
    pub proof fn pulses_tell_freezing_from_unfreezing(self, level: Double)
        requires
            self.amplitude.finite(),
            0real < self.amplitude.amount() <= 1real / 4real,
            level.finite(),
            0real <= level.amount() <= 1real,
        ensures
            ({
                let b = level.amount();
                let a = self.amplitude.amount();
                let frozen = self.pulse(CurveToggleOutcome::Frozen, level).amount();
                let freed = self.pulse(CurveToggleOutcome::Unfrozen, level).amount();
                &&& b <= 1real / 2real ==> size_of(frozen - (b + a)) <= slack()
                &&& b > 1real / 2real ==> size_of(frozen - (b - a)) <= slack()
                &&& b <= 1real / 2real && b - a >= slack() ==> size_of(freed - (b - a)) <= slack()
                &&& b <= 1real / 2real && b - a <= -slack() ==> size_of(freed - (b + 2real * a))
                    <= slack()
                &&& b > 1real / 2real && b + a <= 1real - slack() ==> size_of(freed - (b + a))
                    <= slack()
                &&& b > 1real / 2real && b + a >= 1real + slack() ==> size_of(
                    freed - (b - 2real * a),
                ) <= slack()
            }),
    {
        let zero = Double { bits: 0 };
        let one = Double { bits: ONE };
        let half = Double { bits: HALF };
        let two = Double { bits: TWO };
        let b = level.amount();
        let a = self.amplitude.amount();
        crate::light::lemma_small();
        lemma_marks();
        assert(0real * eps() == 0real);
        Double::limits_are_kept(level, zero, one);
        let shown = level.limited(zero, one);
        assert(near(shown, b, 0real));
        Double::amounts_keep_order(shown, half);
        near_negated(self.amplitude, a, 0real);
        let (primary, x) = if shown.at_most(half) {
            (self.amplitude, a)
        } else {
            (self.amplitude.negated(), -a)
        };
        near_sum(shown, b, 0real, primary, x, 0real, 2real);
        near_difference(shown, b, 0real, primary, x, 0real, 2real);
        near_product(two, 2real, 0real, primary, x, 0real, 2real, 1real);
        let twice = two.product(primary);
        assert(near(twice, 2real * x, 3real));
        near_sum(shown, b, 0real, twice, 2real * x, 3real, 2real);
        let opposite = shown.difference(primary);
        lemma_looser(shown.sum(primary), b + x, 3real);
        lemma_looser(opposite, b - x, 3real);
        lemma_looser(shown.sum(twice), b + 2real * x, 6real);
        crate::light::lemma_few(10real);
        Double::amounts_keep_order(zero, opposite);
        Double::amounts_keep_order(opposite, one);
        lemma_kept(shown.sum(primary), b + x);
        if b - x <= -slack() || b - x >= 1real + slack() {
            lemma_kept(shown.sum(twice), b + 2real * x);
        }
    }
}

} // verus!
