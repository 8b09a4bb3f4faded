//! Why a curve through anchors has a value at every time.
use crate::curve::{MINUS_TWO, ONE, THREE, TWO};
use crate::double::{Double, HIDDEN};
use vstd::arithmetic::power2::*;
use vstd::prelude::*;

verus! {

/// Exact sizes of the constants of the cubic.
proof fn lemma_constants()
    ensures
        (Double { bits: ONE }).size() == crate::bounds::unit(),
        (Double { bits: TWO }).size() == 2 * crate::bounds::unit(),
        (Double { bits: MINUS_TWO }).size() == 2 * crate::bounds::unit(),
        (Double { bits: THREE }).size() == 3 * crate::bounds::unit(),
        crate::bounds::unit() > 0,
{
    lemma_pow2_pos(1074);
    crate::double::lemma_binade(1022);
    crate::double::lemma_binade(1023);
    lemma_pow2_unfold(1075);
    lemma2_to64();
    lemma2_to64_rest();
    lemma_pow2_adds(51, 1023);
    let p = pow2(1023) as int;
    let half = pow2(51) as int;
    let code = (Double { bits: THREE }).code();
    assert(code / HIDDEN as int == 1024 && code % HIDDEN as int == half);
    assert((HIDDEN + half) * p == 3 * (half * p)) by (nonlinear_arith)
        requires
            HIDDEN == 2 * half,
    ;
}

/// The weights of the cubic without rounding, for the part `x / u` of the way.
proof fn lemma_weights(x: int, u: int)
    requires
        0 <= x <= u,
    ensures
        0 <= x * ((u - x) * (u - x)),
        27 * (x * ((u - x) * (u - x))) <= 4 * (u * (u * u)),
        0 <= (x * x) * (u - x),
        27 * ((x * x) * (u - x)) <= 4 * (u * (u * u)),
        3 * ((x * x) * u) - 2 * ((x * x) * x) <= u * (u * u),
{
    let z = u - x;
    assert(0 <= x * (z * z) && 0 <= (x * x) * z) by (nonlinear_arith)
        requires
            0 <= x,
            0 <= z,
    ;
    assert(4 * (u * (u * u)) - 27 * (x * ((u - x) * (u - x))) == ((3 * x - u) * (3 * x - u)) * (4
        * u - 3 * x)) by (nonlinear_arith);
    assert(0 <= ((3 * x - u) * (3 * x - u)) * (4 * u - 3 * x)) by (nonlinear_arith)
        requires
            0 <= x <= u,
    ;
    assert(4 * (u * (u * u)) - 27 * ((x * x) * (u - x)) == ((3 * x - 2 * u) * (3 * x - 2 * u)) * (u
        + 3 * x)) by (nonlinear_arith);
    assert(0 <= ((3 * x - 2 * u) * (3 * x - 2 * u)) * (u + 3 * x)) by (nonlinear_arith)
        requires
            0 <= x <= u,
    ;
    assert(u * (u * u) - 3 * ((x * x) * u) + 2 * ((x * x) * x) == ((u - x) * (u - x)) * (u + 2 * x))
        by (nonlinear_arith);
    assert(0 <= ((u - x) * (u - x)) * (u + 2 * x)) by (nonlinear_arith)
        requires
            0 <= x <= u,
    ;
}

/// An inequality with a common factor.
proof fn lemma_cancel(a: int, b: int, w: int)
    requires
        w > 0,
        a * w <= b * w,
    ensures
        a <= b,
{
    assert(a <= b) by (nonlinear_arith)
        requires
            w > 0,
            a * w <= b * w,
    ;
}

/// The weights of the cubic from a rounded square and a rounded cube.
proof fn lemma_rounded_weights(x: int, s: int, c: int, u: int, eps: int)
    requires
        0 <= x <= u,
        0 < u,
        0 <= eps,
        -(u * eps) <= u * s - x * x <= u * eps,
        -(u * eps) <= u * c - s * x <= u * eps,
    ensures
        -4 * eps <= c - 2 * s + x,
        27 * (c - 2 * s + x) <= 4 * u + 108 * eps,
        c - s <= 3 * eps,
        27 * (s - c) <= 4 * u + 81 * eps,
        3 * s - 2 * c <= u + 7 * eps,
{
    let e1 = u * c - s * x;
    let e2 = u * s - x * x;
    let w = u * u;
    let m = w * eps;
    assert(w > 0) by (nonlinear_arith)
        requires
            w == u * u,
            u > 0,
    ;
    assert(c * w == (x * x) * x + e2 * x + u * e1) by (nonlinear_arith)
        requires
            w == u * u,
            u * c == s * x + e1,
            u * s == x * x + e2,
    ;
    assert(s * w == (x * x) * u + e2 * u) by (nonlinear_arith)
        requires
            w == u * u,
            u * s == x * x + e2,
    ;
    assert(-m <= e2 * x <= m) by (nonlinear_arith)
        requires
            -(u * eps) <= e2 <= u * eps,
            0 <= x <= u,
            0 <= eps,
            m == (u * u) * eps,
    ;
    assert(-m <= u * e1 <= m) by (nonlinear_arith)
        requires
            -(u * eps) <= e1 <= u * eps,
            0 < u,
            m == (u * u) * eps,
    ;
    assert(-m <= e2 * u <= m) by (nonlinear_arith)
        requires
            -(u * eps) <= e2 <= u * eps,
            0 < u,
            m == (u * u) * eps,
    ;
    lemma_weights(x, u);
    assert(x * ((u - x) * (u - x)) == (x * x) * x - 2 * ((x * x) * u) + x * w) by (nonlinear_arith)
        requires
            w == u * u,
    ;
    assert((x * x) * (u - x) == (x * x) * u - (x * x) * x) by (nonlinear_arith);
    let first = c - 2 * s + x;
    let second = s - c;
    let third = 3 * s - 2 * c;
    assert(first * w == c * w - 2 * (s * w) + x * w) by (nonlinear_arith)
        requires
            first == c - 2 * s + x,
    ;
    assert(second * w == s * w - c * w) by (nonlinear_arith)
        requires
            second == s - c,
    ;
    assert(third * w == 3 * (s * w) - 2 * (c * w)) by (nonlinear_arith)
        requires
            third == 3 * s - 2 * c,
    ;
    assert((-4 * eps) * w == -4 * m && (3 * eps) * w == 3 * m) by (nonlinear_arith)
        requires
            m == w * eps,
    ;
    assert((4 * u + 108 * eps) * w == 4 * (u * w) + 108 * m) by (nonlinear_arith)
        requires
            m == w * eps,
    ;
    assert((4 * u + 81 * eps) * w == 4 * (u * w) + 81 * m) by (nonlinear_arith)
        requires
            m == w * eps,
    ;
    assert((u + 7 * eps) * w == u * w + 7 * m) by (nonlinear_arith)
        requires
            m == w * eps,
    ;
    assert((27 * first) * w == 27 * (first * w) && (27 * second) * w == 27 * (second * w))
        by (nonlinear_arith);
    assert((-second) * w == -(second * w)) by (nonlinear_arith);
    lemma_cancel(-4 * eps, first, w);
    lemma_cancel(27 * first, 4 * u + 108 * eps, w);
    lemma_cancel(-second, 3 * eps, w);
    lemma_cancel(27 * second, 4 * u + 81 * eps, w);
    lemma_cancel(third, u + 7 * eps, w);
}

/// Powers of two around one.
proof fn lemma_scale()
    ensures
        crate::bounds::unit() == 0x20_0000_0000_0000 * pow2(1021),
        pow2(1022) == 2 * pow2(1021),
        pow2(1023) == 4 * pow2(1021),
        pow2(1026) == 32 * pow2(1021),
        pow2(1075) == 2 * crate::bounds::unit(),
        pow2(1076) == 4 * crate::bounds::unit(),
        32 * pow2(1069) == crate::bounds::unit(),
        pow2(1021) > 0,
{
    lemma2_to64();
    lemma2_to64_rest();
    lemma_pow2_pos(1021);
    lemma_pow2_adds(53, 1021);
    lemma_pow2_adds(1, 1021);
    lemma_pow2_adds(2, 1021);
    lemma_pow2_adds(5, 1021);
    lemma_pow2_adds(1, 1074);
    lemma_pow2_adds(2, 1074);
    lemma_pow2_adds(5, 1069);
}

/// A rounded product without the scale.
proof fn lemma_unscaled(u: int, rounded: int, exact: int, error: int)
    requires
        u > 0,
        -(u * error) <= u * rounded - u * exact <= u * error,
    ensures
        -error <= rounded - exact <= error,
{
    assert((rounded - exact) * u <= error * u && (-error) * u <= (rounded - exact) * u)
        by (nonlinear_arith)
        requires
            -(u * error) <= u * rounded - u * exact <= u * error,
    ;
    lemma_cancel(rounded - exact, error, u);
    lemma_cancel(-error, rounded - exact, u);
}

/// A number times a small whole constant, up to one.
proof fn lemma_times(constant: Double, number: Double, count: int, top: int)
    requires
        constant.finite(),
        number.finite(),
        constant.size() == count * crate::bounds::unit(),
        0 <= count,
        0 <= number.size() <= crate::bounds::unit(),
        2 <= top <= 1100,
        count * crate::bounds::unit() <= pow2((top + 51) as nat),
    ensures
        constant.product(number).finite(),
        constant.product(number).negative() == (constant.negative() != number.negative()),
        -pow2((top - 2) as nat) <= constant.product(number).size() - count * number.size() <= pow2(
            (top - 2) as nat,
        ),
        0 <= constant.product(number).size() <= pow2((top + 51) as nat),
{
    let u = crate::bounds::unit();
    let n = number.size();
    lemma_pow2_pos(1074);
    assert((count * u) * n == u * (count * n)) by (nonlinear_arith);
    assert(count * n <= count * u) by (nonlinear_arith)
        requires
            0 <= count,
            n <= u,
    ;
    assert(u * (count * n) <= u * pow2((top + 51) as nat)) by (nonlinear_arith)
        requires
            count * n <= pow2((top + 51) as nat),
            u > 0,
    ;
    Double::products_close(constant, number, top);
    lemma_unscaled(u, constant.product(number).size(), count * n, pow2((top - 2) as nat) as int);
}

/// Square and cube of the part of the way.
proof fn lemma_powers(position: Double)
    requires
        position.finite(),
        !position.negative(),
        position.size() <= crate::bounds::unit(),
    ensures
        ({
            let squared = position.product(position);
            let cubed = squared.product(position);
            let u = crate::bounds::unit();
            let eps = pow2(1021) as int;
            let x = position.size();
            let s = squared.size();
            let c = cubed.size();
            &&& squared.finite()
            &&& cubed.finite()
            &&& !squared.negative()
            &&& !cubed.negative()
            &&& 0 <= x
            &&& 0 <= c <= s <= u
            &&& -(u * eps) <= u * s - x * x <= u * eps
            &&& -(u * eps) <= u * c - s * x <= u * eps
        }),
{
    let u = crate::bounds::unit();
    let squared = position.product(position);
    let cubed = squared.product(position);
    let x = position.size();
    Double::sizes(position);
    lemma_pow2_pos(1074);
    assert(x * x <= u * u) by (nonlinear_arith)
        requires
            0 <= x <= u,
    ;
    Double::products_close(position, position, 1023);
    let s = squared.size();
    assert(s * x <= u * u && s * x == x * s) by (nonlinear_arith)
        requires
            0 <= x <= u,
            0 <= s <= u,
    ;
    Double::products_close(squared, position, 1023);
    Double::products_shrink(position, squared);
    Double::product_parts(position, squared);
    Double::product_parts(squared, position);
    Double::sizes_keep_order(cubed, squared);
}

/// The two weights of the slopes are small.
proof fn lemma_slope_bases(position: Double)
    requires
        position.finite(),
        !position.negative(),
        position.size() <= crate::bounds::unit(),
    ensures
        ({
            let two = Double { bits: TWO };
            let squared = position.product(position);
            let cubed = squared.product(position);
            let left = cubed.difference(two.product(squared)).sum(position);
            let right = cubed.difference(squared);
            &&& left.finite()
            &&& right.finite()
            &&& left.size() <= 5 * pow2(1069)
            &&& right.size() <= 5 * pow2(1069)
        }),
{
    let u = crate::bounds::unit();
    let eps = pow2(1021) as int;
    let two = Double { bits: TWO };
    let squared = position.product(position);
    let cubed = squared.product(position);
    let doubled = two.product(squared);
    let x = position.size();
    let s = squared.size();
    let c = cubed.size();
    lemma_constants();
    lemma_scale();
    lemma_powers(position);
    lemma_rounded_weights(x, s, c, u, eps);
    lemma_times(two, squared, 2, 1024);
    lemma_small_difference(cubed, doubled, 1024);
    let apart = cubed.difference(doubled);
    Double::sizes(position);
    Double::sums_close(apart, position, 1025);
    lemma_small_difference(cubed, squared, 1023);
    Double::sizes(apart.sum(position));
    Double::sizes(cubed.difference(squared));
}

/// A difference of small nonnegative numbers.
proof fn lemma_small_difference(a: Double, b: Double, top: int)
    requires
        a.finite(),
        b.finite(),
        !a.negative(),
        !b.negative(),
        a.size() <= pow2((top + 51) as nat),
        b.size() <= pow2((top + 51) as nat),
        2 <= top <= 1100,
    ensures
        a.difference(b).finite(),
        -pow2((top - 2) as nat) <= a.difference(b).units() - (a.size() - b.size()) <= pow2(
            (top - 2) as nat,
        ),
        -pow2((top + 51) as nat) <= a.difference(b).units() <= pow2((top + 51) as nat),
        a.size() <= b.size() ==> a.difference(b).units() <= 0,
{
    Double::sizes(a);
    Double::sizes(b);
    Double::negation(b);
    Double::sums_close(a, b.negated(), top);
    Double::sizes(a.difference(b));
}

/// The weights of the values: at most one in size, and hardly below zero.
proof fn lemma_value_bases(position: Double)
    requires
        position.finite(),
        !position.negative(),
        position.size() <= crate::bounds::unit(),
    ensures
        ({
            let two = Double { bits: TWO };
            let three = Double { bits: THREE };
            let squared = position.product(position);
            let cubed = squared.product(position);
            let left = two.product(cubed).difference(three.product(squared)).sum(
                Double { bits: ONE },
            );
            let right = (Double { bits: MINUS_TWO }).product(cubed).sum(three.product(squared));
            &&& left.finite()
            &&& right.finite()
            &&& left.size() <= crate::bounds::unit()
            &&& left.negative() ==> left.size() <= pow2(1026)
            &&& right.negative() ==> right.code() == 0
        }),
{
    let u = crate::bounds::unit();
    let eps = pow2(1021) as int;
    let one = Double { bits: ONE };
    let two = Double { bits: TWO };
    let three = Double { bits: THREE };
    let minus_two = Double { bits: MINUS_TWO };
    let squared = position.product(position);
    let cubed = squared.product(position);
    let doubled = two.product(cubed);
    let tripled = three.product(squared);
    let x = position.size();
    let s = squared.size();
    let c = cubed.size();
    lemma_constants();
    lemma_scale();
    lemma_powers(position);
    lemma_rounded_weights(x, s, c, u, eps);
    lemma_times(two, cubed, 2, 1025);
    lemma_times(three, squared, 3, 1025);
    lemma_double_below_triple(cubed, squared);
    lemma_small_difference(doubled, tripled, 1025);
    let apart = doubled.difference(tripled);
    Double::sizes(one);
    assert(1 * pow2(1074) == u);
    Double::sums_below(apart, one, 1, 1074);
    Double::sums_close(apart, one, 1023);
    Double::sizes(apart.sum(one));
    lemma_times(minus_two, cubed, 2, 1025);
    let lowered = minus_two.product(cubed);
    Double::product_parts(two, cubed);
    Double::product_parts(minus_two, cubed);
    Double::sizes(lowered);
    Double::sizes(tripled);
    Double::sums_close(lowered, tripled, 1025);
}

/// Twice the cube is no more than three times the square.
proof fn lemma_double_below_triple(cubed: Double, squared: Double)
    requires
        cubed.finite(),
        squared.finite(),
        0 <= cubed.size() <= squared.size(),
    ensures
        (Double { bits: TWO }).product(cubed).size() <= (Double { bits: THREE }).product(
            squared,
        ).size(),
{
    let u = crate::bounds::unit();
    let two = Double { bits: TWO };
    let three = Double { bits: THREE };
    let c = cubed.size();
    let s = squared.size();
    lemma_constants();
    Double::product_parts(two, cubed);
    Double::product_parts(three, squared);
    assert(0 <= (2 * u) * c <= (3 * u) * s && ((2 * u) * c) * u <= ((3 * u) * s) * u)
        by (nonlinear_arith)
        requires
            0 <= c <= s,
            0 < u,
    ;
    crate::double::lemma_nearest_monotone((2 * u) * c, u, (3 * u) * s, u);
    crate::double::lemma_code_order(two.product(cubed).code(), three.product(squared).code());
}

/// The power of two below a number.
pub proof fn lemma_power_below(w: int) -> (k: nat)
    requires
        1 <= w <= 86_400,
    ensures
        k <= 16,
        pow2(k) <= w < 2 * pow2(k),
{
    lemma2_to64();
    if w < 2 {
        0
    } else {
        lemma_power_from(w, 16)
    }
}

proof fn lemma_power_from(w: int, top: nat) -> (k: nat)
    requires
        1 <= w < 2 * pow2(top),
    ensures
        k <= top,
        pow2(k) <= w < 2 * pow2(k),
    decreases top,
{
    lemma2_to64();
    if pow2(top) <= w {
        top
    } else {
        if top > 0 {
            lemma_pow2_unfold(top);
        }
        lemma_power_from(w, (top - 1) as nat)
    }
}

/// A weight over a secant of limited size is not too small.
proof fn lemma_share(count: nat, secant: Double, limit: nat)
    requires
        0 < count <= 300_000,
        secant.finite(),
        secant.code() != 0,
        secant.size() <= pow2(limit),
        2000 <= limit <= 2098,
    ensures
        ({
            let share = Double::of_nat(count).quotient(secant);
            &&& !share.nan()
            &&& share.negative() == secant.negative()
            &&& share.size() >= count * pow2((2148 - limit) as nat)
        }),
{
    let u = crate::bounds::unit();
    let j = (2148 - limit) as nat;
    let p = pow2(j) as int;
    let q = pow2(limit) as int;
    let t = secant.size();
    Double::counts_are_exact(count);
    Double::sizes(secant);
    lemma_pow2_adds(limit, j);
    lemma_pow2_adds(1074, 1074);
    lemma_pow2_pos(j);
    assert(t * (count * p) <= (count * u) * u) by (nonlinear_arith)
        requires
            0 <= t <= q,
            q * p == u * u,
            count >= 0,
            p > 0,
    ;
    lemma2_to64();
    lemma_pow2_increases_to(j, 148);
    lemma_pow2_adds(20, 148);
    lemma_pow2_increases_to(168, 2098);
    assert(count * p <= pow2(20) * pow2(148)) by (nonlinear_arith)
        requires
            0 <= count <= pow2(20),
            0 <= p <= pow2(148),
    ;
    Double::quotients_above(Double::of_nat(count), secant, count as int, j);
}

proof fn lemma_pow2_increases_to(a: nat, b: nat)
    requires
        a <= b,
    ensures
        pow2(a) <= pow2(b),
{
    if a < b {
        lemma_pow2_strictly_increases(a, b);
    }
}

/// A total of weights over a sum of shares that is not too small is limited.
proof fn lemma_mean(total: nat, shares: Double, least: int, j: nat, q: int, limit: nat)
    requires
        0 < total <= 600_000,
        !shares.nan(),
        0 < least,
        shares.size() >= least * pow2(j),
        0 < q < 2 * HIDDEN,
        total * pow2(2148) <= (least * q) * pow2(j + limit),
    ensures
        ({
            let mean = Double::of_nat(total).quotient(shares);
            &&& !mean.nan()
            &&& mean.size() <= q * pow2(limit)
            &&& q * pow2(limit) < pow2(2098) ==> mean.finite()
        }),
{
    let u = crate::bounds::unit();
    let mean = Double::of_nat(total).quotient(shares);
    let p = pow2(j) as int;
    let r = pow2(limit) as int;
    let t = shares.size();
    lemma_pow2_pos(j);
    lemma_pow2_pos(limit);
    assert(0 < least * p && 0 <= q * r) by (nonlinear_arith)
        requires
            0 < least,
            0 < p,
            0 < q,
            0 < r,
    ;
    Double::counts_are_exact(total);
    Double::sizes(shares);
    Double::sizes(mean);
    if shares.finite() {
        lemma_pow2_adds(1074, 1074);
        lemma_pow2_adds(j, limit);
        assert((total * u) * u == total * (u * u)) by (nonlinear_arith);
        assert((least * q) * (p * r) == (least * p) * (q * r)) by (nonlinear_arith);
        assert((least * p) * (q * r) <= t * (q * r)) by (nonlinear_arith)
            requires
                least * p <= t,
                0 <= q * r,
        ;
        Double::quotients_below(Double::of_nat(total), shares, q, limit);
    } else {
        assert(crate::double::code_units(0) == 0);
    }
}

/// Slopes are finite, and at most three times the steepest secant over either
/// neighbouring width.
#[verifier::spinoff_prover]
#[verifier::rlimit(40)]
pub proof fn lemma_slope(
    previous_width: nat,
    next_width: nat,
    previous: Double,
    next: Double,
    i: nat,
    j: nat,
)
    requires
        1 <= previous_width <= 86_400,
        1 <= next_width <= 86_400,
        previous.finite(),
        next.finite(),
        i <= 16,
        j <= 16,
        previous.size() <= pow2((2098 - i) as nat),
        next.size() <= pow2((2098 - j) as nat),
        previous.code() != 0 && next.code() != 0 && previous.negative() == next.negative() ==> (
        previous.size() <= pow2(2097) || next.size() <= pow2(2097)),
    ensures
        ({
            let slope = crate::curve::monotone(
                Double::of_nat(previous_width),
                Double::of_nat(next_width),
                previous,
                next,
            );
            &&& slope.finite()
            &&& slope.size() <= 3 * pow2((2098 - i) as nat)
            &&& slope.size() <= 3 * pow2((2098 - j) as nat)
        }),
{
    let zero = Double { bits: 0 };
    assert(crate::double::code_units(0) == 0);
    if previous.same(zero) || next.same(zero) || previous.nan() || next.nan()
        || previous.negative() != next.negative() {
        assert(zero.size() == 0);
    } else {
        let a = 2 * next_width + previous_width;
        let b = next_width + 2 * previous_width;
        Double::counts_add(next_width, 0);
        Double::counts_add(previous_width, 0);
        Double::counts_add(2 * next_width, previous_width);
        Double::counts_add(next_width, 2 * previous_width);
        Double::counts_add(a, b);
        lemma_weighted(a, b, previous, next, i, j);
    }
}

/// The weighted mean of two secants.
proof fn lemma_weighted(a: nat, b: nat, previous: Double, next: Double, i: nat, j: nat)
    requires
        0 < a <= 300_000,
        0 < b <= 300_000,
        a <= 2 * b,
        b <= 2 * a,
        previous.finite(),
        next.finite(),
        previous.code() != 0,
        next.code() != 0,
        previous.negative() == next.negative(),
        i <= 16,
        j <= 16,
        previous.size() <= pow2((2098 - i) as nat),
        next.size() <= pow2((2098 - j) as nat),
        previous.size() <= pow2(2097) || next.size() <= pow2(2097),
    ensures
        ({
            let slope = Double::of_nat(a + b).quotient(
                Double::of_nat(a).quotient(previous).sum(Double::of_nat(b).quotient(next)),
            );
            &&& slope.finite()
            &&& slope.size() <= 3 * pow2((2098 - i) as nat)
            &&& slope.size() <= 3 * pow2((2098 - j) as nat)
        }),
{
    let before = Double::of_nat(a).quotient(previous);
    let after = Double::of_nat(b).quotient(next);
    let shares = before.sum(after);
    lemma_share(a, previous, (2098 - i) as nat);
    lemma_share(b, next, (2098 - j) as nat);
    Double::sizes(before);
    Double::sizes(after);
    lemma_one_share(a, a + b, before, after, i);
    lemma_swapped(before, after);
    lemma_one_share(b, a + b, after, before, j);
    Double::sizes(previous);
    Double::sizes(next);
    lemma_pow2_increases_to(2097, 2098);
    if previous.size() <= pow2(2097) {
        lemma_share(a, previous, 2097);
        lemma_share(b, next, 2098);
        lemma_both_shares(a, b, before, after);
    } else {
        lemma_share(a, previous, 2098);
        lemma_share(b, next, 2097);
        lemma_both_shares(b, a, after, before);
    }
}

pub proof fn lemma_swapped(a: Double, b: Double)
    requires
        !a.nan(),
        !b.nan(),
        a.negative() == b.negative(),
    ensures
        a.sum(b) == b.sum(a),
{
    if a.infinite() && b.infinite() {
        assert(a.bits == b.bits);
    }
}

/// One share alone keeps the mean below three times its secant.
proof fn lemma_one_share(count: nat, total: nat, share: Double, other: Double, i: nat)
    requires
        0 < count <= 300_000,
        count <= total <= 3 * count,
        total <= 600_000,
        !share.nan(),
        !other.nan(),
        share.negative() == other.negative(),
        other.size() >= 0,
        i <= 16,
        share.size() >= count * pow2((2148 - (2098 - i)) as nat),
    ensures
        ({
            let mean = Double::of_nat(total).quotient(share.sum(other));
            &&& !mean.nan()
            &&& mean.size() <= 3 * pow2((2098 - i) as nat)
        }),
{
    let j = (50 + i) as nat;
    let limit = (2098 - i) as nat;
    lemma_small_count(count as int, j);
    Double::sums_above(share, other, count as int, j);
    let w = pow2(2148) as int;
    assert(total * w <= (count * 3) * w) by (nonlinear_arith)
        requires
            total <= 3 * count,
            w >= 0,
    ;
    lemma_mean(total, share.sum(other), count as int, j, 3, limit);
}

/// Both shares together keep the mean finite.
proof fn lemma_both_shares(a: nat, b: nat, share: Double, other: Double)
    requires
        0 < a <= 300_000,
        0 < b <= 300_000,
        b <= 2 * a,
        !share.nan(),
        !other.nan(),
        share.negative() == other.negative(),
        share.size() >= a * pow2(51),
        other.size() >= b * pow2(50),
    ensures
        Double::of_nat(a + b).quotient(share.sum(other)).finite(),
        Double::of_nat(a + b).quotient(other.sum(share)).finite(),
{
    let least = 2 * a + b;
    lemma_swapped(share, other);
    lemma_pow2_unfold(51);
    let p = pow2(50) as int;
    assert(least * p == a * (2 * p) + b * p) by (nonlinear_arith)
        requires
            least == 2 * a + b,
    ;
    lemma_small_count(least as int, 50);
    Double::sums_above(share, other, least as int, 50);
    lemma_pow2_adds(2146, 2);
    lemma2_to64();
    let w = pow2(2146) as int;
    let total = a + b;
    assert(total * (w * 4) <= (least * 3) * w) by (nonlinear_arith)
        requires
            4 * total <= 3 * least,
            w >= 0,
    ;
    lemma_pow2_adds(2096, 2);
    lemma_pow2_pos(2096);
    lemma_mean(total, share.sum(other), least as int, 50, 3, 2096);
}

proof fn lemma_small_count(count: int, j: nat)
    requires
        0 < count <= 900_000,
        j <= 66,
    ensures
        count * pow2(j) <= pow2(2098),
{
    lemma2_to64();
    lemma_pow2_increases_to(j, 66);
    lemma_pow2_adds(20, 66);
    lemma_pow2_increases_to(86, 2098);
    let p = pow2(j) as int;
    assert(count * p <= pow2(20) * pow2(66)) by (nonlinear_arith)
        requires
            0 <= count <= pow2(20),
            0 <= p <= pow2(66),
    ;
}

/// A slope, weighted for the part of the way, is finite.
pub proof fn lemma_slope_term(basis: Double, width: nat, slope: Double, k: nat)
    requires
        basis.finite(),
        basis.size() <= 5 * pow2(1069),
        1 <= width <= 86_400,
        width < 2 * pow2(k),
        k <= 16,
        slope.finite(),
        slope.size() <= 3 * pow2((2098 - k) as nat),
    ensures
        basis.product(Double::of_nat(width)).product(slope).finite(),
        basis.product(Double::of_nat(width)).product(slope).size() <= 15 * pow2(2094),
{
    let u = crate::bounds::unit();
    let e = pow2(1069) as int;
    let p = pow2(k) as int;
    let scaled = basis.product(Double::of_nat(width));
    Double::counts_are_exact(width);
    Double::sizes(basis);
    Double::sizes(slope);
    lemma_pow2_pos(1074);
    lemma_pow2_pos(k);
    lemma_pow2_pos(1069);
    lemma_pow2_adds(1069, (k + 1) as nat);
    lemma_pow2_unfold((k + 1) as nat);
    let x = basis.size();
    assert(x * (width * u) <= u * (5 * (e * (2 * p)))) by (nonlinear_arith)
        requires
            0 <= x <= 5 * e,
            0 <= width <= 2 * p,
            0 < u,
    ;
    let j = (1070 + k) as nat;
    lemma2_to64();
    lemma_pow2_adds(3, j);
    lemma_pow2_strictly_increases((3 + j) as nat, 2098);
    Double::products_below(basis, Double::of_nat(width), 5, j);
    let y = scaled.size();
    let z = slope.size();
    let q = pow2(j) as int;
    let r = pow2((2098 - k) as nat) as int;
    lemma_pow2_adds(j, (2098 - k) as nat);
    lemma_pow2_adds(1074, 2094);
    assert(y * z <= 15 * (q * r)) by (nonlinear_arith)
        requires
            0 <= y <= 5 * q,
            0 <= z <= 3 * r,
    ;
    let g = pow2(2094) as int;
    assert(u * (15 * g) == 15 * (u * g)) by (nonlinear_arith);
    lemma_pow2_adds(4, 2094);
    lemma_pow2_pos(2094);
    Double::products_below(scaled, slope, 15, 2094);
}

/// The weighted values and slopes add to a number.
proof fn lemma_terms(
    left_basis: Double,
    left: Double,
    left_term: Double,
    right_basis: Double,
    right: Double,
    right_term: Double,
)
    requires
        left_basis.finite(),
        left_basis.size() <= crate::bounds::unit(),
        left_basis.negative() ==> left_basis.size() <= pow2(1026),
        left.finite(),
        left.negative() ==> left.code() == 0,
        left_term.finite(),
        left_term.size() <= 15 * pow2(2094),
        right_basis.finite(),
        right_basis.negative() ==> right_basis.code() == 0,
        right.finite(),
        right.negative() ==> right.code() == 0,
        right_term.finite(),
    ensures
        !left_basis.product(left).sum(left_term).sum(right_basis.product(right)).sum(
            right_term,
        ).nan(),
{
    let first = left_basis.product(left);
    let third = right_basis.product(right);
    lemma_first_sum(left_basis, left, left_term);
    lemma_third(right_basis, right);
    let start = first.sum(left_term);
    lemma_sum_is_number(start, third);
    lemma_sum_is_number(start.sum(third), right_term);
}

/// Numbers that are not infinities of opposite sign have a sum.
proof fn lemma_sum_is_number(a: Double, b: Double)
    requires
        !a.nan(),
        !b.nan(),
        b.finite() || (a.negative() ==> a.finite()),
        b.infinite() ==> !b.negative(),
    ensures
        !a.sum(b).nan(),
{
    if a.finite() && b.finite() {
        Double::finite_operations(a, b);
    }
}

proof fn lemma_third(basis: Double, value: Double)
    requires
        basis.finite(),
        basis.negative() ==> basis.code() == 0,
        value.finite(),
        value.negative() ==> value.code() == 0,
    ensures
        !basis.product(value).nan(),
        basis.product(value).infinite() ==> !basis.product(value).negative(),
{
    Double::product_parts(basis, value);
    Double::sizes(basis);
    Double::sizes(value);
    if basis.code() == 0 || value.code() == 0 {
        assert(basis.size() * value.size() == 0) by (nonlinear_arith)
            requires
                basis.size() == 0 || value.size() == 0,
        ;
        crate::double::lemma_nearest_zero(crate::bounds::unit());
    }
}

proof fn lemma_first_sum(basis: Double, value: Double, term: Double)
    requires
        basis.finite(),
        basis.size() <= crate::bounds::unit(),
        basis.negative() ==> basis.size() <= pow2(1026),
        value.finite(),
        value.negative() ==> value.code() == 0,
        term.finite(),
        term.size() <= 15 * pow2(2094),
    ensures
        !basis.product(value).sum(term).nan(),
        basis.product(value).sum(term).negative() ==> basis.product(value).sum(term).finite(),
{
    let first = basis.product(value);
    Double::sizes(basis);
    Double::sizes(value);
    Double::products_shrink(basis, value);
    Double::sizes(first);
    Double::sizes(term);
    lemma_pow2_unfold(2094);
    lemma_pow2_increases_to(2050, 2093);
    lemma2_to64();
    lemma_pow2_adds(5, 2093);
    lemma_pow2_pos(2093);
    if first.units() < 0 {
        assert(value.size() != 0);
        let x = basis.size();
        let y = value.size();
        lemma_pow2_adds(1026, 2098);
        lemma_pow2_adds(1074, 2050);
        assert(x * y <= pow2(1026) * pow2(2098)) by (nonlinear_arith)
            requires
                0 <= x <= pow2(1026),
                0 <= y <= pow2(2098),
        ;
        lemma_pow2_strictly_increases(2050, 2098);
        assert(1 * pow2(2050) == pow2(2050));
        Double::products_below(basis, value, 1, 2050);
    }
    Double::sums_not_low(first, term, 31, 2093);
}

/// The cubic through two values is a number.
pub proof fn lemma_cubic(
    position: Double,
    width: nat,
    left: Double,
    left_slope: Double,
    right: Double,
    right_slope: Double,
    k: nat,
)
    requires
        position.finite(),
        !position.negative(),
        position.size() <= crate::bounds::unit(),
        1 <= width <= 86_400,
        width < 2 * pow2(k),
        k <= 16,
        left.finite(),
        left.negative() ==> left.code() == 0,
        right.finite(),
        right.negative() ==> right.code() == 0,
        left_slope.finite(),
        left_slope.size() <= 3 * pow2((2098 - k) as nat),
        right_slope.finite(),
        right_slope.size() <= 3 * pow2((2098 - k) as nat),
    ensures
        !crate::curve::hermite(
            position,
            Double::of_nat(width),
            left,
            left_slope,
            right,
            right_slope,
        ).nan(),
{
    let two = Double { bits: TWO };
    let three = Double { bits: THREE };
    let squared = position.product(position);
    let cubed = squared.product(position);
    let left_basis = two.product(cubed).difference(three.product(squared)).sum(
        Double { bits: ONE },
    );
    let left_slope_basis = cubed.difference(two.product(squared)).sum(position);
    let right_basis = (Double { bits: MINUS_TWO }).product(cubed).sum(three.product(squared));
    let right_slope_basis = cubed.difference(squared);
    lemma_value_bases(position);
    lemma_slope_bases(position);
    lemma_slope_term(left_slope_basis, width, left_slope, k);
    lemma_slope_term(right_slope_basis, width, right_slope, k);
    lemma_terms(
        left_basis,
        left,
        left_slope_basis.product(Double::of_nat(width)).product(left_slope),
        right_basis,
        right,
        right_slope_basis.product(Double::of_nat(width)).product(right_slope),
    );
}

} // verus!
