//! How closely a computed curve follows the smooth one it stands for.
use crate::amount::{eps, lemma_grow, lemma_grow_both, lemma_powers, lemma_spread, near, power, size_of, tiny};
use crate::curve::{MINUS_TWO, ONE, THREE, TWO};
use crate::double::Double;
use vstd::arithmetic::power2::*;
use vstd::prelude::*;

verus! {

/// The weights of a cubic with given values and slopes at both ends, at the part `x` of
/// the way.
pub open spec fn left_weight(x: real) -> real {
    2real * ((x * x) * x) - 3real * (x * x) + 1real
}

pub open spec fn right_weight(x: real) -> real {
    3real * (x * x) - 2real * ((x * x) * x)
}

pub open spec fn left_slope_weight(x: real) -> real {
    (x * x) * x - 2real * (x * x) + x
}

pub open spec fn right_slope_weight(x: real) -> real {
    (x * x) * x - x * x
}

/// Squares and cubes of parts.
proof fn lemma_part_powers(x: real)
    requires
        0real <= x <= 1real,
    ensures
        0real <= (x * x) * x <= x * x,
        x * x <= x,
        0real <= left_weight(x) <= 1real,
        0real <= right_weight(x) <= 1real,
        0real <= left_slope_weight(x) <= 1real,
        -1real <= right_slope_weight(x) <= 0real,
{
    lemma_grow_both(x, 1real, x, x);
    lemma_grow_both(x * x, x * x, x, 1real);
    assert(1real * x == x && (x * x) * 1real == x * x);
    let y = 1real - x;
    assert(left_weight(x) == (y * y) * (1real + 2real * x)) by (nonlinear_arith)
        requires
            left_weight(x) == 2real * ((x * x) * x) - 3real * (x * x) + 1real,
            y == 1real - x,
    ;
    lemma_grow_both(y, y, y, y);
    lemma_grow_both(y * y, y * y, 1real + 2real * x, 1real + 2real * x);
    assert(left_slope_weight(x) == x * (y * y)) by (nonlinear_arith)
        requires
            left_slope_weight(x) == (x * x) * x - 2real * (x * x) + x,
            y == 1real - x,
    ;
    lemma_grow_both(x, x, y * y, y * y);
}

proof fn lemma_constants()
    ensures
        near(Double { bits: ONE }, 1real, 0real),
        near(Double { bits: TWO }, 2real, 0real),
        near(Double { bits: THREE }, 3real, 0real),
        near(Double { bits: MINUS_TWO }, -2real, 0real),
{
    lemma2_to64();
    lemma2_to64_rest();
    assert(power(52) == 4_503_599_627_370_496real);
    assert(power(51) == 2_251_799_813_685_248real);
    Double::exact_amount(Double { bits: ONE }, 1023, 1real);
    Double::exact_amount(Double { bits: TWO }, 1024, 2real);
    Double::exact_amount(Double { bits: THREE }, 1024, 3real);
    let two = Double { bits: TWO };
    crate::amount::near_negated(two, 2real, 0real);
    assert(two.negated() == (Double { bits: MINUS_TWO }));
    assert(0real * eps() == 0real);
}

/// The computed weights are near the exact ones.
#[verifier::spinoff_prover]
proof fn lemma_weights(position: Double, x: real)
    requires
        near(position, x, 2real),
        0real <= x <= 1real,
    ensures
        ({
            let two = Double { bits: TWO };
            let three = Double { bits: THREE };
            let squared = position.product(position);
            let cubed = squared.product(position);
            &&& near(
                two.product(cubed).difference(three.product(squared)).sum(Double { bits: ONE }),
                left_weight(x),
                60real,
            )
            &&& near(
                cubed.difference(two.product(squared)).sum(position),
                left_slope_weight(x),
                40real,
            )
            &&& near(
                (Double { bits: MINUS_TWO }).product(cubed).sum(three.product(squared)),
                right_weight(x),
                60real,
            )
            &&& near(cubed.difference(squared), right_slope_weight(x), 40real)
        }),
{
    let one = Double { bits: ONE };
    let two = Double { bits: TWO };
    let three = Double { bits: THREE };
    let minus_two = Double { bits: MINUS_TWO };
    let squared = position.product(position);
    let cubed = squared.product(position);
    let x2 = x * x;
    let x3 = x2 * x;
    lemma_constants();
    lemma_part_powers(x);
    crate::amount::near_product(position, x, 2real, position, x, 2real, 1real, 1real);
    assert(near(squared, x2, 6real));
    crate::amount::near_product(squared, x2, 6real, position, x, 2real, 1real, 1real);
    assert(near(cubed, x3, 10real));
    crate::amount::near_product(two, 2real, 0real, cubed, x3, 10real, 2real, 1real);
    assert(near(two.product(cubed), 2real * x3, 23real));
    crate::amount::near_product(three, 3real, 0real, squared, x2, 6real, 3real, 1real);
    assert(near(three.product(squared), 3real * x2, 22real));
    crate::amount::near_product(minus_two, -2real, 0real, cubed, x3, 10real, 2real, 1real);
    assert(near(minus_two.product(cubed), -2real * x3, 23real));
    crate::amount::near_product(two, 2real, 0real, squared, x2, 6real, 2real, 1real);
    assert(near(two.product(squared), 2real * x2, 15real));
    crate::amount::near_difference(
        two.product(cubed),
        2real * x3,
        23real,
        three.product(squared),
        3real * x2,
        22real,
        3real,
    );
    crate::amount::near_sum(
        two.product(cubed).difference(three.product(squared)),
        2real * x3 - 3real * x2,
        49real,
        one,
        1real,
        0real,
        1real,
    );
    crate::amount::near_difference(cubed, x3, 10real, two.product(squared), 2real * x2, 15real, 2real);
    crate::amount::near_sum(
        cubed.difference(two.product(squared)),
        x3 - 2real * x2,
        28real,
        position,
        x,
        2real,
        1real,
    );
    crate::amount::near_sum(
        minus_two.product(cubed),
        -2real * x3,
        23real,
        three.product(squared),
        3real * x2,
        22real,
        1real,
    );
    crate::amount::near_difference(cubed, x3, 10real, squared, x2, 6real, 1real);
    lemma_looser(
        two.product(cubed).difference(three.product(squared)).sum(one),
        left_weight(x),
        51real,
        60real,
    );
    lemma_looser(
        cubed.difference(two.product(squared)).sum(position),
        left_slope_weight(x),
        32real,
        40real,
    );
    lemma_looser(
        minus_two.product(cubed).sum(three.product(squared)),
        right_weight(x),
        47real,
        60real,
    );
    lemma_looser(cubed.difference(squared), right_slope_weight(x), 18real, 40real);
}

proof fn lemma_looser(a: Double, x: real, k: real, l: real)
    requires
        near(a, x, k),
        k <= l,
    ensures
        near(a, x, l),
{
    lemma_powers();
    lemma_grow(k, l, eps());
}

/// `r` is off from `x` by at most `k` roundings of `most`.
pub open spec fn close(r: real, x: real, k: real, most: real) -> bool {
    size_of(r - x) <= (k * eps()) * most
}

/// A size that values of a curve can have.
pub open spec fn broad(most: real) -> bool {
    1real <= most <= power(900)
}

/// How small the errors are against the sizes.
pub proof fn lemma_broad(most: real)
    requires
        broad(most),
    ensures
        eps() > 0real,
        eps() <= 1real / 9_000_000_000_000_000real,
        0real < eps() * most,
        eps() <= eps() * most,
        tiny() <= eps() * eps(),
        tiny() > 0real,
        eps() * eps() <= eps() / 1_000_000real,
        eps() * eps() <= eps() * most / 1_000_000real,
        1_000_000real * most <= power(1000),
        (eps() * most) * eps() <= (eps() * most) / 1_000_000real,
{
    lemma_powers();
    let e = eps();
    assert(e * 9_007_199_254_740_992real == 1real) by (nonlinear_arith)
        requires
            e == 1real / 9_007_199_254_740_992real,
    ;
    lemma_grow(1real, most, e);
    lemma_grow(e, 1real / 1_000_000real, e);
    lemma_grow(e, 1real / 1_000_000real, e * most);
    lemma_spread(e * most, e * most, e);
    assert((1real / 1_000_000real) * e == e / 1_000_000real) by (nonlinear_arith);
    let g = e * most;
    assert((1real / 1_000_000real) * g == g / 1_000_000real) by (nonlinear_arith);
    lemma2_to64();
    lemma2_to64_rest();
    lemma_pow2_adds(900, 100);
    lemma_pow2_adds(64, 36);
    crate::amount::lemma_real_product(pow2(900) as int, pow2(100) as int);
    lemma_pow2_pos(36);
    assert(pow2(100) >= 1_000_000) by (nonlinear_arith)
        requires
            pow2(100) == pow2(64) * pow2(36),
            pow2(64) >= 1_000_000,
            pow2(36) >= 1,
    ;
    lemma_grow(1_000_000real, power(100), most);
    lemma_grow(most, power(900), power(100));
    lemma_spread(most, most, power(100));
    lemma_spread(power(900), power(900), power(100));
}

/// A sum of close numbers is close.
proof fn close_sum(a: Double, x: real, ka: real, b: Double, y: real, kb: real, n: real, most: real)
    requires
        a.finite(),
        b.finite(),
        close(a.amount(), x, ka, most),
        close(b.amount(), y, kb, most),
        broad(most),
        0real <= ka <= 2_000real,
        0real <= kb <= 2_000real,
        0real <= n <= 100real,
        size_of(x + y) <= n * most,
    ensures
        a.sum(b).finite(),
        close(a.sum(b).amount(), x + y, ka + kb + n + 1real, most),
{
    lemma_broad(most);
    let e = eps();
    let g = e * most;
    let z = a.amount() + b.amount();
    let k = ka + kb;
    assert((ka * e) * most == ka * g && (kb * e) * most == kb * g) by (nonlinear_arith)
        requires
            g == e * most,
    ;
    lemma_spread(ka, kb, g);
    assert(size_of(z - (x + y)) <= k * g);
    lemma_grow(k, 4_000real, g);
    lemma_grow(n, 100real, most);
    lemma_grow(e, 1real, most);
    assert(g <= most && size_of(z) <= n * most + k * g);
    Double::sum_amount(a, b);
    lemma_grow(size_of(z), n * most + k * g, e);
    lemma_spread(n * most, k * g, e);
    assert((n * most) * e == n * g && (k * g) * e == k * (g * e)) by (nonlinear_arith)
        requires
            g == e * most,
    ;
    lemma_grow_both(g, g, e, e);
    lemma_grow(k, 4_000real, g * e);
    assert(4_000real * (g * e) <= g / 2real);
    lemma_spread(k, n, g);
    lemma_spread(k + n, 1real, g);
    let total = ka + kb + n + 1real;
    assert((total * e) * most == total * g) by (nonlinear_arith)
        requires
            g == e * most,
    ;
}

/// A weighted value is close.
proof fn close_value(basis: Double, h: real, k: real, value: Double, most: real)
    requires
        near(basis, h, k),
        -1real <= h <= 1real,
        0real <= k <= 1_000real,
        value.finite(),
        size_of(value.amount()) <= most,
        broad(most),
    ensures
        basis.product(value).finite(),
        close(basis.product(value).amount(), h * value.amount(), k + 3real, most),
{
    lemma_broad(most);
    let e = eps();
    let g = e * most;
    let v = value.amount();
    let z = basis.amount() * v;
    crate::amount::lemma_product_error(basis.amount(), h, k * e, v, v, 0real, 1real, most);
    assert(1real * 0real == 0real && (k * e) * 0real == 0real) by (nonlinear_arith);
    assert((k * e) * most == k * g) by (nonlinear_arith)
        requires
            g == e * most,
    ;
    lemma_grow(k, 1_000real, g);
    lemma_grow(e, 1real / 1_000_000real, most);
    assert((1real / 1_000_000real) * most == most / 1_000_000real) by (nonlinear_arith);
    crate::amount::lemma_size_product(h, v);
    lemma_grow_both(size_of(h), 1real, size_of(v), most);
    assert(size_of(z) <= 2real * most);
    Double::product_amount(basis, value);
    lemma_grow(size_of(z), 2real * most, e);
    assert((2real * most) * e == 2real * g) by (nonlinear_arith)
        requires
            g == e * most,
    ;
    lemma_spread(k, 3real, g);
    let total = k + 3real;
    assert((total * e) * most == total * g) by (nonlinear_arith)
        requires
            g == e * most,
    ;
}

/// The least part of a slope that is told from none.
pub open spec fn faint() -> real {
    1real / power(900)
}

pub proof fn lemma_faint()
    ensures
        0real < faint(),
        1_000_000real * faint() <= eps() / 1_000_000real,
{
    lemma_powers();
    lemma2_to64();
    lemma2_to64_rest();
    lemma_pow2_adds(120, 780);
    lemma_pow2_adds(64, 56);
    lemma_pow2_pos(780);
    crate::amount::lemma_real_product(pow2(120) as int, pow2(780) as int);
    crate::amount::lemma_real_product(pow2(64) as int, pow2(56) as int);
    assert(pow2(56) == 0x100_0000_0000_0000);
    let p = power(900);
    let b = power(120);
    assert(b == 18_446_744_073_709_551_616real * 72_057_594_037_927_936real);
    let c = power(780);
    assert(c >= 1real);
    lemma_grow(1real, c, b);
    lemma_spread(b, b, c);
    assert(p >= b);
    let f = faint();
    assert(f * p == 1real && f > 0real) by (nonlinear_arith)
        requires
            f == 1real / p,
            p > 0real,
    ;
    lemma_grow(b, p, f);
    lemma_spread(p, p, f);
    lemma_spread(b, b, f);
    let e = eps();
    assert(e * 9_007_199_254_740_992real == 1real) by (nonlinear_arith)
        requires
            e == 1real / 9_007_199_254_740_992real,
    ;
    assert(b * f <= 1real);
}

/// A weighted slope is close.
#[verifier::spinoff_prover]
proof fn close_slope(
    basis: Double,
    h: real,
    width: nat,
    slope: Double,
    ideal: real,
    most: real,
)
    requires
        near(basis, h, 40real),
        -1real <= h <= 1real,
        1 <= width <= 86_400,
        slope.finite(),
        size_of(slope.amount() - ideal) <= (30real * eps()) * size_of(ideal) + faint(),
        size_of(width as real * ideal) <= 3real * most,
        broad(most),
    ensures
        ({
            let term = basis.product(Double::of_nat(width)).product(slope);
            &&& term.finite()
            &&& close(term.amount(), h * (width as real * ideal), 300real, most)
        }),
{
    lemma_broad(most);
    lemma_faint();
    let e = eps();
    let g = e * most;
    let w = width as real;
    let span = Double::of_nat(width);
    let scaled = basis.product(span);
    let m = slope.amount();
    let q = scaled.amount();
    lemma_count(width);
    // The weight times the width.
    crate::amount::lemma_product_error(basis.amount(), h, 40real * e, w, w, 0real, 1real, w);
    assert(1real * 0real == 0real && (40real * e) * 0real == 0real) by (nonlinear_arith);
    let ew = e * w;
    assert((40real * e) * w == 40real * ew) by (nonlinear_arith)
        requires
            ew == e * w,
    ;
    lemma_grow(1real, w, e);
    lemma_grow(e, 1real / 1_000_000real, w);
    assert((1real / 1_000_000real) * w == w / 1_000_000real) by (nonlinear_arith);
    crate::amount::lemma_size_product(h, w);
    lemma_grow_both(size_of(h), 1real, w, w);
    let z = basis.amount() * w;
    assert(size_of(z) <= 2real * w);
    lemma_wide();
    Double::product_amount(basis, span);
    lemma_grow(size_of(z), 2real * w, e);
    assert((2real * w) * e == 2real * ew) by (nonlinear_arith)
        requires
            ew == e * w,
    ;
    assert(size_of(q - h * w) <= 43real * ew);
    // The slope over the width.
    let r = w * ideal;
    let s = w * m;
    let d = m - ideal;
    crate::amount::lemma_size_product(w, ideal);
    crate::amount::lemma_size_product(w, d);
    lemma_spread(m, ideal, w);
    assert(s - r == w * d);
    lemma_grow(size_of(d), (30real * e) * size_of(ideal) + faint(), w);
    let si = size_of(ideal);
    assert(w * ((30real * e) * si + faint()) == (30real * e) * (w * si) + w * faint())
        by (nonlinear_arith);
    lemma_grow(w * si, 3real * most, 30real * e);
    assert((30real * e) * (3real * most) == 90real * g) by (nonlinear_arith)
        requires
            g == e * most,
    ;
    lemma_grow(w, 1_000_000real, faint());
    assert(size_of(w) == w);
    assert(size_of(s - r) <= 91real * g);
    lemma_grow(e, 1real / 1_000_000real, most);
    assert((1real / 1_000_000real) * most == most / 1_000_000real) by (nonlinear_arith);
    assert(size_of(s) <= 4real * most);
    // The product of both.
    let y = q * m;
    let a = q - h * w;
    assert(y - h * r == a * m + h * (s - r)) by (nonlinear_arith)
        requires
            y == q * m,
            a == q - h * w,
            r == w * ideal,
            s == w * m,
    ;
    crate::amount::lemma_size_product(a, m);
    crate::amount::lemma_size_product(w, m);
    lemma_grow(size_of(a), 43real * ew, size_of(m));
    assert((43real * ew) * size_of(m) == (43real * e) * (w * size_of(m))) by (nonlinear_arith)
        requires
            ew == e * w,
    ;
    lemma_grow(w * size_of(m), 4real * most, 43real * e);
    assert((43real * e) * (4real * most) == 172real * g) by (nonlinear_arith)
        requires
            g == e * most,
    ;
    crate::amount::lemma_size_product(h, s - r);
    lemma_grow_both(size_of(h), 1real, size_of(s - r), 91real * g);
    assert(size_of(y - h * r) <= 263real * g);
    crate::amount::lemma_size_product(h, r);
    lemma_grow_both(size_of(h), 1real, size_of(r), 3real * most);
    assert(size_of(y) <= 4real * most);
    Double::product_amount(scaled, slope);
    lemma_grow(size_of(y), 4real * most, e);
    assert((4real * most) * e == 4real * g) by (nonlinear_arith)
        requires
            g == e * most,
    ;
    assert((300real * e) * most == 300real * g) by (nonlinear_arith)
        requires
            g == e * most,
    ;
}

/// Whole numbers are exact.
pub proof fn lemma_count(width: nat)
    requires
        width <= 1_000_000,
    ensures
        Double::of_nat(width).finite(),
        Double::of_nat(width).amount() == width as real,
        width > 0 ==> Double::of_nat(width).code() != 0,
{
    Double::counts_are_exact(width);
    lemma_powers();
    lemma_pow2_pos(1074);
    let u = power(1074);
    let n = width as real;
    crate::amount::lemma_real_product(width as int, pow2(1074) as int);
    assert((n * u) / u == n) by (nonlinear_arith)
        requires
            u > 0real,
    ;
    Double::amounts(Double::of_nat(width));
}

proof fn lemma_wide()
    ensures
        power(1000) >= 1_000_000_000real,
        power(900) >= 1_000_000_000real,
{
    lemma_powers();
    lemma_pow2_strictly_increases(900, 1000);
}

/// The exact cubic with these values and slopes at both ends.
pub open spec fn cubic(x: real, left: real, left_rise: real, right: real, right_rise: real) -> real {
    left_weight(x) * left + left_slope_weight(x) * left_rise + right_weight(x) * right
        + right_slope_weight(x) * right_rise
}

/// The computed cubic is close to the exact one.
#[verifier::spinoff_prover]
pub proof fn close_cubic(
    position: Double,
    x: real,
    width: nat,
    left: Double,
    left_slope: Double,
    left_ideal: real,
    right: Double,
    right_slope: Double,
    right_ideal: real,
    most: real,
)
    requires
        near(position, x, 2real),
        0real <= x <= 1real,
        1 <= width <= 86_400,
        left.finite(),
        right.finite(),
        size_of(left.amount()) <= most,
        size_of(right.amount()) <= most,
        left_slope.finite(),
        right_slope.finite(),
        size_of(left_slope.amount() - left_ideal) <= (30real * eps()) * size_of(left_ideal)
            + faint(),
        size_of(right_slope.amount() - right_ideal) <= (30real * eps()) * size_of(right_ideal)
            + faint(),
        size_of(width as real * left_ideal) <= 3real * most,
        size_of(width as real * right_ideal) <= 3real * most,
        broad(most),
    ensures
        ({
            let value = crate::curve::hermite(
                position,
                Double::of_nat(width),
                left,
                left_slope,
                right,
                right_slope,
            );
            &&& value.finite()
            &&& close(
                value.amount(),
                cubic(
                    x,
                    left.amount(),
                    width as real * left_ideal,
                    right.amount(),
                    width as real * right_ideal,
                ),
                1_000real,
                most,
            )
        }),
{
    let two = Double { bits: TWO };
    let three = Double { bits: THREE };
    let squared = position.product(position);
    let cubed = squared.product(position);
    let span = Double::of_nat(width);
    let b1 = two.product(cubed).difference(three.product(squared)).sum(Double { bits: ONE });
    let b2 = cubed.difference(two.product(squared)).sum(position);
    let b3 = (Double { bits: MINUS_TWO }).product(cubed).sum(three.product(squared));
    let b4 = cubed.difference(squared);
    let l = left.amount();
    let r = right.amount();
    let lr = width as real * left_ideal;
    let rr = width as real * right_ideal;
    lemma_weights(position, x);
    lemma_part_powers(x);
    close_value(b1, left_weight(x), 60real, left, most);
    close_value(b3, right_weight(x), 60real, right, most);
    close_slope(b2, left_slope_weight(x), width, left_slope, left_ideal, most);
    close_slope(b4, right_slope_weight(x), width, right_slope, right_ideal, most);
    lemma_shrunk(left_weight(x), l, most);
    lemma_shrunk(right_weight(x), r, most);
    lemma_shrunk(left_slope_weight(x), lr, 3real * most);
    lemma_shrunk(right_slope_weight(x), rr, 3real * most);
    let t1 = b1.product(left);
    let t2 = b2.product(span).product(left_slope);
    let t3 = b3.product(right);
    let t4 = b4.product(span).product(right_slope);
    let x1 = left_weight(x) * l;
    let x2 = left_slope_weight(x) * lr;
    let x3 = right_weight(x) * r;
    let x4 = right_slope_weight(x) * rr;
    close_sum(t1, x1, 63real, t2, x2, 300real, 4real, most);
    close_sum(t1.sum(t2), x1 + x2, 368real, t3, x3, 63real, 5real, most);
    close_sum(t1.sum(t2).sum(t3), x1 + x2 + x3, 437real, t4, x4, 300real, 8real, most);
    lemma_broad(most);
    let e = eps();
    lemma_grow(746real, 1_000real, e);
    lemma_grow(746real * e, 1_000real * e, most);
}

proof fn lemma_shrunk(h: real, v: real, most: real)
    requires
        -1real <= h <= 1real,
        size_of(v) <= most,
    ensures
        size_of(h * v) <= most,
{
    crate::amount::lemma_size_product(h, v);
    lemma_grow_both(size_of(h), 1real, size_of(v), most);
}

/// One is such a size.
pub proof fn lemma_broad_one()
    ensures
        broad(1real),
{
    lemma_wide();
}

pub proof fn lemma_one()
    ensures
        (Double { bits: ONE }).finite(),
        (Double { bits: ONE }).amount() == 1real,
{
    lemma2_to64();
    lemma2_to64_rest();
    assert(power(52) == 4_503_599_627_370_496real);
    Double::exact_amount(Double { bits: ONE }, 1023, 1real);
}

} // verus!
