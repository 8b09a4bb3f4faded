//! How the seasons move the sun.
use crate::amount::{
    eps, lemma_grow, lemma_powers, lemma_size_product, near, near_difference,
    near_product, near_sum, power, size_of,
};
use crate::double::Double;
use crate::light::slack;
use crate::solar::{
    SeasonAngles, TILT_CONSTANT, TILT_COSINE,
    TILT_DOUBLE_COSINE, TILT_DOUBLE_SINE, TILT_SINE, TILT_TRIPLE_COSINE, TILT_TRIPLE_SINE,
    TIME_CONSTANT, TIME_COSINE, TIME_DOUBLE_COSINE, TIME_DOUBLE_SINE, TIME_SCALE, TIME_SINE,
};
use vstd::arithmetic::power2::*;
use vstd::prelude::*;

verus! {

/// A number is as close to a decimal as its last digit.
proof fn lemma_decimal(a: Double, e: int, digits: real, whole: real, decimal: real, k: real)
    requires
        1 <= e <= 1075,
        !a.negative(),
        a.code() / crate::double::HIDDEN as int == e,
        (crate::double::HIDDEN + a.code() % crate::double::HIDDEN as int) as real == digits,
        power((1075 - e) as nat) == whole,
        whole > 0real,
        size_of(digits - decimal * whole) <= k * eps() * whole,
    ensures
        near(a, decimal, k),
{
    Double::known_amount(a, e);
    let x = a.amount();
    let y = k * eps();
    assert(size_of(x - decimal) <= y) by (nonlinear_arith)
        requires
            x * whole == digits,
            size_of(digits - decimal * whole) <= y * whole,
            whole > 0real,
            size_of(x - decimal) == (if x - decimal < 0real { -(x - decimal) } else { x - decimal }),
            size_of(digits - decimal * whole) == (if digits - decimal * whole < 0real {
                -(digits - decimal * whole)
            } else {
                digits - decimal * whole
            }),
    ;
}

proof fn lemma_times()
    ensures
        near(Double { bits: TIME_SCALE }, 229_180_000real / 1_000_000real, 230real),
        near(Double { bits: TIME_CONSTANT }, 75real / 1_000_000real, 1real),
        near(Double { bits: TIME_COSINE }, 1_868real / 1_000_000real, 1real),
        near(Double { bits: TIME_SINE }, 32_077real / 1_000_000real, 1real),
        near(Double { bits: TIME_DOUBLE_COSINE }, 14_615real / 1_000_000real, 1real),
        near(Double { bits: TIME_DOUBLE_SINE }, 40_849real / 1_000_000real, 1real),
{
    lemma2_to64();
    lemma2_to64_rest();
    lemma_powers();
    lemma_pow2_adds(64, 2);
    assert(power(45) == 35_184_372_088_832real);
    lemma_decimal(
        Double { bits: TIME_SCALE },
        1030,
        8_063_554_395_318_518real,
        35_184_372_088_832real,
        229_180_000real / 1_000_000real,
        230real,
    );
    assert(power(66) == 73_786_976_294_838_206_464real);
    lemma_decimal(
        Double { bits: TIME_CONSTANT },
        1009,
        5_534_023_222_112_865real,
        73_786_976_294_838_206_464real,
        75real / 1_000_000real,
        1real,
    );
    assert(power(62) == 4_611_686_018_427_387_904real);
    lemma_decimal(
        Double { bits: TIME_COSINE },
        1013,
        8_614_629_482_422_361real,
        4_611_686_018_427_387_904real,
        1_868real / 1_000_000real,
        1real,
    );
    assert(power(57) == 144_115_188_075_855_872real);
    lemma_decimal(
        Double { bits: TIME_SINE },
        1018,
        4_622_782_887_909_229real,
        144_115_188_075_855_872real,
        32_077real / 1_000_000real,
        1real,
    );
    assert(power(59) == 576_460_752_303_423_488real);
    lemma_decimal(
        Double { bits: TIME_DOUBLE_COSINE },
        1016,
        8_424_973_894_914_534real,
        576_460_752_303_423_488real,
        14_615real / 1_000_000real,
        1real,
    );
    assert(power(57) == 144_115_188_075_855_872real);
    lemma_decimal(
        Double { bits: TIME_DOUBLE_SINE },
        1018,
        5_886_961_317_710_637real,
        144_115_188_075_855_872real,
        40_849real / 1_000_000real,
        1real,
    );
}

proof fn lemma_tilts()
    ensures
        near(Double { bits: TILT_CONSTANT }, 6_918real / 1_000_000real, 1real),
        near(Double { bits: TILT_COSINE }, 399_912real / 1_000_000real, 1real),
        near(Double { bits: TILT_SINE }, 70_257real / 1_000_000real, 1real),
        near(Double { bits: TILT_DOUBLE_COSINE }, 6_758real / 1_000_000real, 1real),
        near(Double { bits: TILT_DOUBLE_SINE }, 907real / 1_000_000real, 1real),
        near(Double { bits: TILT_TRIPLE_COSINE }, 2_697real / 1_000_000real, 1real),
        near(Double { bits: TILT_TRIPLE_SINE }, 1_480real / 1_000_000real, 1real),
{
    lemma2_to64();
    lemma2_to64_rest();
    lemma_powers();
    lemma_pow2_adds(64, 2);
    assert(power(60) == 1_152_921_504_606_846_976real);
    lemma_decimal(
        Double { bits: TILT_CONSTANT },
        1015,
        7_975_910_968_870_167real,
        1_152_921_504_606_846_976real,
        6_918real / 1_000_000real,
        1real,
    );
    assert(power(54) == 18_014_398_509_481_984real);
    lemma_decimal(
        Double { bits: TILT_COSINE },
        1021,
        7_204_174_136_723_959real,
        18_014_398_509_481_984real,
        399_912real / 1_000_000real,
        1real,
    );
    assert(power(56) == 72_057_594_037_927_936real);
    lemma_decimal(
        Double { bits: TILT_SINE },
        1019,
        5_062_550_384_322_703real,
        72_057_594_037_927_936real,
        70_257real / 1_000_000real,
        1real,
    );
    assert(power(60) == 1_152_921_504_606_846_976real);
    lemma_decimal(
        Double { bits: TILT_DOUBLE_COSINE },
        1015,
        7_791_443_528_133_072real,
        1_152_921_504_606_846_976real,
        6_758real / 1_000_000real,
        1real,
    );
    assert(power(63) == 9_223_372_036_854_775_808real);
    lemma_decimal(
        Double { bits: TILT_DOUBLE_SINE },
        1012,
        8_365_598_437_427_282real,
        9_223_372_036_854_775_808real,
        907real / 1_000_000real,
        1real,
    );
    assert(power(61) == 2_305_843_009_213_693_952real);
    lemma_decimal(
        Double { bits: TILT_TRIPLE_COSINE },
        1014,
        6_218_858_595_849_333real,
        2_305_843_009_213_693_952real,
        2_697real / 1_000_000real,
        1real,
    );
    assert(power(62) == 4_611_686_018_427_387_904real);
    lemma_decimal(
        Double { bits: TILT_TRIPLE_SINE },
        1013,
        6_825_295_307_272_534real,
        4_611_686_018_427_387_904real,
        1_480real / 1_000_000real,
        1real,
    );
}

/// A term of a season's sum.
proof fn lemma_term(a: Double, weight: real, v: Double)
    requires
        near(a, weight, 1real),
        0real <= weight <= 1real / 2real,
        v.finite(),
        size_of(v.amount()) <= 1real,
    ensures
        near(a.product(v), weight * v.amount(), 3real),
        size_of(weight * v.amount()) <= weight,
{
    let x = v.amount();
    assert(0real * eps() == 0real);
    near_product(a, weight, 1real, v, x, 0real, 1real, 1real);
    lemma_size_product(weight, x);
    lemma_grow(size_of(x), 1real, weight);
}

impl SeasonAngles {
    /// The cosines and sines are ones.
    pub open spec fn on_the_circle(self) -> bool {
        &&& self.cosine.finite() && size_of(self.cosine.amount()) <= 1real
        &&& self.sine.finite() && size_of(self.sine.amount()) <= 1real
        &&& self.double_cosine.finite() && size_of(self.double_cosine.amount()) <= 1real
        &&& self.double_sine.finite() && size_of(self.double_sine.amount()) <= 1real
        &&& self.triple_cosine.finite() && size_of(self.triple_cosine.amount()) <= 1real
        &&& self.triple_sine.finite() && size_of(self.triple_sine.amount()) <= 1real
    }

    /// The sun runs ahead of the clock by the sum of its yearly and half-yearly swings, in
    /// minutes.
    pub proof fn the_sun_runs_ahead_by_its_swings(self)
        requires
            self.on_the_circle(),
        ensures
            self.ahead().finite(),
            ({
                let c = self.cosine.amount();
                let s = self.sine.amount();
                let c2 = self.double_cosine.amount();
                let s2 = self.double_sine.amount();
                let swing = 75real / 1_000_000real + (1_868real / 1_000_000real) * c - (32_077real
                    / 1_000_000real) * s - (14_615real / 1_000_000real) * c2 - (40_849real
                    / 1_000_000real) * s2;
                size_of(self.ahead().amount() - (22_918real / 100real) * swing) <= slack()
            }),
    {
        lemma_times();
        let w0 = 75real / 1_000_000real;
        let (w1, w2) = (1_868real / 1_000_000real, 32_077real / 1_000_000real);
        let (w3, w4) = (14_615real / 1_000_000real, 40_849real / 1_000_000real);
        let (c, s) = (self.cosine.amount(), self.sine.amount());
        let (c2, s2) = (self.double_cosine.amount(), self.double_sine.amount());
        let a0 = Double { bits: TIME_CONSTANT };
        let a1 = (Double { bits: TIME_COSINE }).product(self.cosine);
        let a2 = (Double { bits: TIME_SINE }).product(self.sine);
        let a3 = (Double { bits: TIME_DOUBLE_COSINE }).product(self.double_cosine);
        let a4 = (Double { bits: TIME_DOUBLE_SINE }).product(self.double_sine);
        lemma_term(Double { bits: TIME_COSINE }, w1, self.cosine);
        lemma_term(Double { bits: TIME_SINE }, w2, self.sine);
        lemma_term(Double { bits: TIME_DOUBLE_COSINE }, w3, self.double_cosine);
        lemma_term(Double { bits: TIME_DOUBLE_SINE }, w4, self.double_sine);
        let (t1, t2, t3, t4) = (w1 * c, w2 * s, w3 * c2, w4 * s2);
        near_sum(a0, w0, 1real, a1, t1, 3real, 1real);
        let b1 = a0.sum(a1);
        near_difference(b1, w0 + t1, 6real, a2, t2, 3real, 1real);
        let b2 = b1.difference(a2);
        near_difference(b2, w0 + t1 - t2, 11real, a3, t3, 3real, 1real);
        let b3 = b2.difference(a3);
        near_difference(b3, w0 + t1 - t2 - t3, 16real, a4, t4, 3real, 1real);
        let b4 = b3.difference(a4);
        let swing = w0 + t1 - t2 - t3 - t4;
        let scale = Double { bits: TIME_SCALE };
        let m = 22_918real / 100real;
        assert(m == 229_180_000real / 1_000_000real);
        near_product(scale, m, 230real, b4, swing, 21real, 230real, 1real);
        crate::light::lemma_few(10_000real);
        lemma_powers();
        lemma_grow(230real * 1real + 21real * 230real + 230real * 1real + 1real, 10_000real, eps());
    }

    /// The sun stands overhead at the latitude that its swings of a year, half a year and
    /// a third of one give, in radians.
    pub proof fn the_sun_stands_overhead_by_its_swings(self)
        requires
            self.on_the_circle(),
        ensures
            self.tilt().finite(),
            ({
                let c = self.cosine.amount();
                let s = self.sine.amount();
                let c2 = self.double_cosine.amount();
                let s2 = self.double_sine.amount();
                let c3 = self.triple_cosine.amount();
                let s3 = self.triple_sine.amount();
                let swing = 6_918real / 1_000_000real - (399_912real / 1_000_000real) * c + (
                70_257real / 1_000_000real) * s - (6_758real / 1_000_000real) * c2 + (907real
                    / 1_000_000real) * s2 - (2_697real / 1_000_000real) * c3 + (1_480real
                    / 1_000_000real) * s3;
                size_of(self.tilt().amount() - swing) <= slack()
            }),
    {
        lemma_tilts();
        let w0 = 6_918real / 1_000_000real;
        let (w1, w2) = (399_912real / 1_000_000real, 70_257real / 1_000_000real);
        let (w3, w4) = (6_758real / 1_000_000real, 907real / 1_000_000real);
        let (w5, w6) = (2_697real / 1_000_000real, 1_480real / 1_000_000real);
        let a0 = Double { bits: TILT_CONSTANT };
        let a1 = (Double { bits: TILT_COSINE }).product(self.cosine);
        let a2 = (Double { bits: TILT_SINE }).product(self.sine);
        let a3 = (Double { bits: TILT_DOUBLE_COSINE }).product(self.double_cosine);
        let a4 = (Double { bits: TILT_DOUBLE_SINE }).product(self.double_sine);
        let a5 = (Double { bits: TILT_TRIPLE_COSINE }).product(self.triple_cosine);
        let a6 = (Double { bits: TILT_TRIPLE_SINE }).product(self.triple_sine);
        lemma_term(Double { bits: TILT_COSINE }, w1, self.cosine);
        lemma_term(Double { bits: TILT_SINE }, w2, self.sine);
        lemma_term(Double { bits: TILT_DOUBLE_COSINE }, w3, self.double_cosine);
        lemma_term(Double { bits: TILT_DOUBLE_SINE }, w4, self.double_sine);
        lemma_term(Double { bits: TILT_TRIPLE_COSINE }, w5, self.triple_cosine);
        lemma_term(Double { bits: TILT_TRIPLE_SINE }, w6, self.triple_sine);
        let (t1, t2) = (w1 * self.cosine.amount(), w2 * self.sine.amount());
        let (t3, t4) = (w3 * self.double_cosine.amount(), w4 * self.double_sine.amount());
        let (t5, t6) = (w5 * self.triple_cosine.amount(), w6 * self.triple_sine.amount());
        near_difference(a0, w0, 1real, a1, t1, 3real, 1real);
        let b1 = a0.difference(a1);
        near_sum(b1, w0 - t1, 6real, a2, t2, 3real, 1real);
        let b2 = b1.sum(a2);
        near_difference(b2, w0 - t1 + t2, 11real, a3, t3, 3real, 1real);
        let b3 = b2.difference(a3);
        near_sum(b3, w0 - t1 + t2 - t3, 16real, a4, t4, 3real, 1real);
        let b4 = b3.sum(a4);
        near_difference(b4, w0 - t1 + t2 - t3 + t4, 21real, a5, t5, 3real, 1real);
        let b5 = b4.difference(a5);
        near_sum(b5, w0 - t1 + t2 - t3 + t4 - t5, 26real, a6, t6, 3real, 1real);
        crate::light::lemma_few(31real);
    }
}

} // verus!
