//! What numbers amount to, as real numbers, and how far rounding can be off.
use crate::double::{Double, HIDDEN, INFINITE};
use vstd::arithmetic::power2::*;
use vstd::prelude::*;

verus! {

/// A power of two as a real number.
pub open spec fn power(k: nat) -> real {
    pow2(k) as real
}

/// The largest relative error of one rounding.
pub open spec fn eps() -> real {
    1real / power(53)
}

/// The largest error of one rounding close to zero.
pub open spec fn tiny() -> real {
    1real / power(1075)
}

pub open spec fn size_of(x: real) -> real {
    if x < 0real {
        -x
    } else {
        x
    }
}

impl Double {
    /// What a finite number amounts to.
    pub open spec fn amount(self) -> real {
        self.units() as real / power(1074)
    }
}

/// Steps between neighbouring numbers are small against the numbers.
proof fn lemma_step(code: int)
    requires
        0 <= code,
    ensures
        HIDDEN * (crate::double::code_units(code + 1) - crate::double::code_units(code))
            <= crate::double::code_units(code) + HIDDEN,
{
    let e = code / HIDDEN as int;
    let f = code % HIDDEN as int;
    vstd::arithmetic::div_mod::lemma_fundamental_div_mod(code, HIDDEN as int);
    assert(e >= 0) by (nonlinear_arith)
        requires
            code >= 0,
            e == code / HIDDEN as int,
    ;
    if e == 0 {
        crate::double::lemma_code_of(f, 0);
        lemma2_to64();
        assert(0 * HIDDEN + f == code);
        assert(f * 1 == f && (f + 1) * 1 == f + 1) by (nonlinear_arith);
    } else {
        crate::double::lemma_code_of(HIDDEN + f, e - 1);
        assert((e - 1) * HIDDEN + HIDDEN + f == code) by (nonlinear_arith)
            requires
                code == HIDDEN * e + f,
        ;
        let p = pow2((e - 1) as nat) as int;
        let q = HIDDEN + f;
        assert((q + 1) * p - q * p == p && HIDDEN * p <= q * p) by (nonlinear_arith)
            requires
                q >= HIDDEN,
                p >= 0,
        ;
    }
}

/// Rounding is off by little against what is rounded.
pub proof fn lemma_relative(n: int, d: int)
    requires
        n >= 0,
        d > 0,
        n <= d * pow2(2090),
    ensures
        0 <= crate::double::nearest(n, d) < INFINITE,
        2 * HIDDEN * (d * crate::double::code_units(crate::double::nearest(n, d)) - n) <= n + d
            * HIDDEN,
        2 * HIDDEN * (n - d * crate::double::code_units(crate::double::nearest(n, d))) <= n + d
            * HIDDEN,
{
    let c = crate::double::nearest(n, d);
    assert(1 * pow2(2090) == pow2(2090));
    lemma_pow2_strictly_increases(2090, 2098);
    crate::bounds::lemma_below(n, d, 1, 2090);
    crate::double::lemma_nearest_exists(n, d);
    let v = crate::double::code_units(c);
    let up = crate::double::code_units(c + 1) - v;
    crate::double::lemma_code_order(0, c);
    assert(crate::double::code_units(0) == 0);
    lemma_step(c);
    let high = d * (v + crate::double::code_units(c + 1));
    assert(high == 2 * (d * v) + d * up) by (nonlinear_arith)
        requires
            high == d * (v + (v + up)),
    ;
    assert(HIDDEN * (d * up) <= d * v + d * HIDDEN) by (nonlinear_arith)
        requires
            HIDDEN * up <= v + HIDDEN,
            d > 0,
    ;
    assert(0 <= d * HIDDEN && 0 <= d * v) by (nonlinear_arith)
        requires
            d > 0,
            v >= 0,
    ;
    if c > 0 {
        let before = crate::double::code_units(c - 1);
        let down = v - before;
        let low = d * (before + v);
        lemma_step(c - 1);
        crate::double::lemma_code_order(0, c - 1);
        crate::double::lemma_code_order(c - 1, c);
        assert(low == 2 * (d * v) - d * down && low == 2 * (d * before) + d * down)
            by (nonlinear_arith)
            requires
                low == d * (before + v),
                down == v - before,
        ;
        assert(HIDDEN * (d * down) <= d * before + d * HIDDEN && 0 <= d * down) by (nonlinear_arith)
            requires
                HIDDEN * down <= before + HIDDEN,
                d > 0,
                down >= 0,
        ;
    } else {
        assert(d * 0 == 0) by (nonlinear_arith);
    }
}

/// The powers that errors are measured by.
pub proof fn lemma_powers()
    ensures
        power(1074) > 0real,
        power(53) == 9_007_199_254_740_992real,
        eps() > 0real,
        tiny() > 0real,
        tiny() * 2real * power(1074) == 1real,
        tiny() <= eps() * eps(),
        power(900) >= 1_000_000_000real,
        tiny() * power(900) <= eps() * eps(),
{
    lemma2_to64();
    lemma2_to64_rest();
    lemma_pow2_pos(1074);
    lemma_pow2_unfold(1075);
    lemma_pow2_pos(1075);
    lemma_pow2_pos(900);
    lemma_pow2_pos(100);
    lemma_pow2_adds(53, 53);
    lemma_pow2_adds(106, 969);
    lemma_pow2_adds(64, 36);
    lemma_pow2_adds(36, 864);
    lemma_pow2_pos(864);
    lemma_pow2_pos(969);
    let a = pow2(969) as real;
    let b = pow2(106) as real;
    let n = pow2(53) as real;
    assert(a >= 1real && b > 0real);
    assert(power(1075) == 2real * power(1074));
    assert(pow2(1075) == pow2(106) * pow2(969));
    assert(power(1075) == b * a) by {
        lemma_real_product(pow2(106) as int, pow2(969) as int);
    }
    lemma_real_product(pow2(53) as int, pow2(53) as int);
    lemma_inverse(power(53));
    lemma_inverse(power(1075));
    assert(1real / n * (1real / n) == 1real / (n * n)) by (nonlinear_arith)
        requires
            n > 0real,
    ;
    lemma_pow2_adds(106, 969);
    lemma_pow2_adds(900, 69);
    lemma_real_product(pow2(900) as int, pow2(69) as int);
    lemma_pow2_pos(69);
    let c = power(900);
    let g = pow2(69) as real;
    assert(g >= 1real);
    assert(c <= c * g) by (nonlinear_arith)
        requires
            c > 0real,
            g >= 1real,
    ;
    assert(1real / (b * a) <= 1real / b && 1real / (b * a) * c <= 1real / b) by (nonlinear_arith)
        requires
            b > 0real,
            a >= 1real,
            c > 0real,
            c <= a,
    ;
    let t = tiny();
    let u = power(1074);
    assert(t * 2real * u == 1real) by (nonlinear_arith)
        requires
            t * (2real * u) == 1real,
    ;
}

proof fn lemma_inverse(x: real)
    requires
        x > 0real,
    ensures
        1real / x > 0real,
        (1real / x) * x == 1real,
{
    assert((1real / x) * x == 1real && 1real / x > 0real) by (nonlinear_arith)
        requires
            x > 0real,
    ;
}

/// Products of integers as real numbers.
pub proof fn lemma_real_product(a: int, b: int)
    ensures
        (a * b) as real == (a as real) * (b as real),
{
    assert((a * b) as real == (a as real) * (b as real)) by (nonlinear_arith);
}

/// A rounded value in real numbers.
pub(crate) proof fn lemma_real_error(n: int, d: int, v: int)
    requires
        n >= 0,
        d > 0,
        2 * HIDDEN * (d * v - n) <= n + d * HIDDEN,
        2 * HIDDEN * (n - d * v) <= n + d * HIDDEN,
    ensures
        size_of(v as real - n as real / (d as real)) <= (n as real / (d as real)) * eps() + 1real
            / 2real,
{
    lemma_powers();
    let x = n as real;
    let y = d as real;
    let z = v as real;
    lemma_real_product(d, v);
    let q = x / y;
    assert(q * y == x) by (nonlinear_arith)
        requires
            q == x / y,
            y > 0real,
    ;
    let h = 4_503_599_627_370_496real;
    let p = d * v;
    assert(p as real == y * z);
    assert(2 * HIDDEN * (p - n) <= n + d * HIDDEN && 2 * HIDDEN * (n - p) <= n + d * HIDDEN);
    let gap = p - n;
    let twice = 2 * HIDDEN;
    assert(twice * gap <= n + d * HIDDEN && -(twice * gap) <= n + d * HIDDEN) by (nonlinear_arith)
        requires
            twice * (p - n) <= n + d * HIDDEN,
            twice * (n - p) <= n + d * HIDDEN,
            gap == p - n,
    ;
    lemma_real_product(twice, gap);
    assert(twice as real == 2real * h);
    let w = 2real * h;
    assert(w * (y * z - x) == (twice * gap) as real);
    assert(w * (x - y * z) == -(w * (y * z - x))) by (nonlinear_arith);
    assert((n + d * HIDDEN) as real == x + y * h);
    assert(2real * h * (y * z - x) <= x + y * h && 2real * h * (x - y * z) <= x + y * h);
    assert((z - q) * (2real * h) <= q + h && (q - z) * (2real * h) <= q + h) by (nonlinear_arith)
        requires
            2real * h * (y * z - x) <= x + y * h,
            2real * h * (x - y * z) <= x + y * h,
            q * y == x,
            y > 0real,
    ;
    let e = eps();
    lemma_inverse(power(53));
    assert(z - q <= q * e + 1real / 2real && q - z <= q * e + 1real / 2real) by (nonlinear_arith)
        requires
            (z - q) * (2real * h) <= q + h,
            (q - z) * (2real * h) <= q + h,
            e * (2real * h) == 1real,
            h == 4_503_599_627_370_496real,
    ;
}

impl Double {
    /// Amounts and what they are made of.
    pub proof fn amounts(a: Double)
        ensures
            a.negative() ==> a.amount() <= 0real,
            !a.negative() ==> a.amount() >= 0real,
            size_of(a.amount()) == a.size() as real / power(1074),
            a.finite() && a.code() != 0 ==> a.amount() != 0real,
            a.code() == 0 ==> a.amount() == 0real,
            a.amount() * power(1074) == a.units() as real,
    {
        Double::sizes(a);
        lemma_powers();
        let u = power(1074);
        let x = a.units() as real;
        let y = a.size() as real;
        assert((x / u) * u == x && (y / u) * u == y) by (nonlinear_arith)
            requires
                u > 0real,
        ;
        assert(y / u >= 0real && (x >= 0real ==> x / u >= 0real) && (x <= 0real ==> x / u <= 0real)
            && (x == y ==> x / u == y / u) && (x == -y ==> x / u == -(y / u)) && (x != 0real ==> x
            / u != 0real) && (x == 0real ==> x / u == 0real)) by (nonlinear_arith)
            requires
                u > 0real,
                y >= 0real,
        ;
    }

    /// The numeric order is that of amounts.
    pub proof fn amounts_keep_order(a: Double, b: Double)
        requires
            a.finite(),
            b.finite(),
        ensures
            a.at_most(b) <==> a.amount() <= b.amount(),
            a.less(b) <==> a.amount() < b.amount(),
    {
        Double::order_is_numeric(a, b);
        lemma_powers();
        let u = power(1074);
        let x = a.units() as real;
        let y = b.units() as real;
        assert((x <= y) == (x / u <= y / u) && (x < y) == (x / u < y / u)) by (nonlinear_arith)
            requires
                u > 0real,
        ;
    }

    /// A sum is off by little.
    pub proof fn sum_amount(a: Double, b: Double)
        requires
            a.finite(),
            b.finite(),
            size_of(a.amount() + b.amount()) <= power(1000),
        ensures
            a.sum(b).finite(),
            size_of(a.sum(b).amount() - (a.amount() + b.amount())) <= size_of(
                a.amount() + b.amount(),
            ) * eps() + tiny(),
            a.amount() + b.amount() > 0real ==> a.sum(b).amount() >= 0real,
            a.amount() + b.amount() < 0real ==> a.sum(b).amount() <= 0real,
    {
        lemma_powers();
        Double::amounts(a);
        Double::amounts(b);
        Double::amounts(a.sum(b));
        Double::sizes(a.sum(b));
        Double::lemma_sum_place(a, b);
        let exact = a.units() + b.units();
        let n = if exact < 0 {
            -exact
        } else {
            exact
        };
        let u = power(1074);
        let x = a.amount() + b.amount();
        assert(x * u == exact as real) by (nonlinear_arith)
            requires
                a.amount() * u == a.units() as real,
                b.amount() * u == b.units() as real,
                x == a.amount() + b.amount(),
                exact as real == a.units() as real + b.units() as real,
        ;
        assert(size_of(x) * u == n as real) by (nonlinear_arith)
            requires
                x * u == exact as real,
                u > 0real,
                n as real == (if exact < 0 { -(exact as real) } else { exact as real }),
                size_of(x) == (if x < 0real { -x } else { x }),
                exact < 0 ==> (exact as real) < 0real,
                exact >= 0 ==> (exact as real) >= 0real,
        ;
        assert((x < 0real) == (exact < 0) && (x > 0real) == (exact > 0)) by (nonlinear_arith)
            requires
                x * u == exact as real,
                u > 0real,
        ;
        lemma_pow2_adds(1000, 1074);
        lemma_real_product(pow2(1000) as int, pow2(1074) as int);
        lemma_pow2_strictly_increases(2074, 2090);
        assert(n as real <= power(1000) * u) by (nonlinear_arith)
            requires
                size_of(x) * u == n as real,
                size_of(x) <= power(1000),
                u > 0real,
        ;
        assert(n <= pow2(2074));
        lemma_relative(n, 1);
        assert(crate::double::code_units(0) == 0);
        if n == 0 {
            crate::double::lemma_nearest_zero(1);
        }
        let v = a.sum(b).size();
        lemma_real_error(n, 1, v);
        assert(n as real / 1real == n as real);
        lemma_scaled_error(a.sum(b).amount(), x, v as real, n as real);
    }

    /// A product is off by little.
    pub proof fn product_amount(a: Double, b: Double)
        requires
            a.finite(),
            b.finite(),
            size_of(a.amount() * b.amount()) <= power(1000),
        ensures
            a.product(b).finite(),
            size_of(a.product(b).amount() - a.amount() * b.amount()) <= size_of(
                a.amount() * b.amount(),
            ) * eps() + tiny(),
    {
        lemma_powers();
        Double::amounts(a);
        Double::amounts(b);
        Double::product_parts(a, b);
        let d = crate::bounds::unit();
        let u = power(1074);
        let n = a.size() * b.size();
        let x = a.amount();
        let y = b.amount();
        lemma_real_product(a.size(), b.size());
        lemma_size_product(x, y);
        assert(size_of(x * y) * u * u == n as real) by (nonlinear_arith)
            requires
                size_of(x) == a.size() as real / u,
                size_of(y) == b.size() as real / u,
                size_of(x * y) == size_of(x) * size_of(y),
                n as real == (a.size() as real) * (b.size() as real),
                u > 0real,
        ;
        let m = n as real / u;
        assert(m == size_of(x * y) * u && m <= power(1000) * u) by (nonlinear_arith)
            requires
                size_of(x * y) * u * u == n as real,
                m == n as real / u,
                size_of(x * y) <= power(1000),
                u > 0real,
        ;
        lemma_pow2_adds(1000, 1074);
        lemma_real_product(pow2(1000) as int, pow2(1074) as int);
        lemma_pow2_strictly_increases(2074, 2090);
        lemma_real_product(d, pow2(2090) as int);
        assert(n as real <= u * power(2090)) by (nonlinear_arith)
            requires
                m == n as real / u,
                m <= power(2074),
                power(2074) <= power(2090),
                u > 0real,
        ;
        lemma_relative(n, d);
        lemma_real_error(n, d, a.product(b).size());
        Double::amounts(a.product(b));
        lemma_signs(x, y);
        lemma_scaled_error(a.product(b).amount(), x * y, a.product(b).size() as real, m);
    }

    /// A quotient is off by little.
    pub proof fn quotient_amount(a: Double, b: Double)
        requires
            a.finite(),
            b.finite(),
            b.code() != 0,
            size_of(a.amount() / b.amount()) <= power(1000),
        ensures
            a.quotient(b).finite(),
            size_of(a.quotient(b).amount() - a.amount() / b.amount()) <= size_of(
                a.amount() / b.amount(),
            ) * eps() + tiny(),
    {
        lemma_powers();
        Double::amounts(a);
        Double::amounts(b);
        Double::quotient_parts(a, b);
        let d = b.size();
        let u = power(1074);
        let n = a.size() * crate::bounds::unit();
        let x = a.amount();
        let y = b.amount();
        let q = x / y;
        lemma_real_product(a.size(), crate::bounds::unit());
        assert(q * y == x) by (nonlinear_arith)
            requires
                q == x / y,
                y != 0real,
        ;
        lemma_size_product(q, y);
        let m = n as real / (d as real);
        let sd = d as real;
        let sn = a.size() as real;
        assert(sd > 0real && sn >= 0real);
        assert(m == size_of(q) * u && n as real == m * sd) by (nonlinear_arith)
            requires
                size_of(x) == sn / u,
                size_of(y) == sd / u,
                size_of(x) == size_of(q) * size_of(y),
                n as real == sn * u,
                m == n as real / sd,
                sd > 0real,
                u > 0real,
        ;
        lemma_pow2_adds(1000, 1074);
        lemma_real_product(pow2(1000) as int, pow2(1074) as int);
        lemma_pow2_strictly_increases(2074, 2090);
        lemma_real_product(d, pow2(2090) as int);
        assert(n as real <= sd * power(2090)) by (nonlinear_arith)
            requires
                n as real == m * sd,
                m == size_of(q) * u,
                size_of(q) <= power(1000),
                power(1000) * u == power(2074),
                power(2074) <= power(2090),
                sd > 0real,
                u > 0real,
        ;
        lemma_relative(n, d);
        lemma_real_error(n, d, a.quotient(b).size());
        Double::amounts(a.quotient(b));
        lemma_quotient_signs(x, y);
        lemma_scaled_error(a.quotient(b).amount(), q, a.quotient(b).size() as real, m);
    }
}

pub proof fn lemma_size_product(x: real, y: real)
    ensures
        size_of(x * y) == size_of(x) * size_of(y),
{
    assert(size_of(x * y) == size_of(x) * size_of(y)) by (nonlinear_arith)
        requires
            size_of(x) == (if x < 0real { -x } else { x }),
            size_of(y) == (if y < 0real { -y } else { y }),
            size_of(x * y) == (if x * y < 0real { -(x * y) } else { x * y }),
    ;
}

proof fn lemma_signs(x: real, y: real)
    ensures
        (x <= 0real && y <= 0real) || (x >= 0real && y >= 0real) ==> x * y >= 0real,
        (x <= 0real && y >= 0real) || (x >= 0real && y <= 0real) ==> x * y <= 0real,
{
    assert(((x <= 0real && y <= 0real) || (x >= 0real && y >= 0real) ==> x * y >= 0real) && ((x
        <= 0real && y >= 0real) || (x >= 0real && y <= 0real) ==> x * y <= 0real))
        by (nonlinear_arith);
}

proof fn lemma_quotient_signs(x: real, y: real)
    requires
        y != 0real,
    ensures
        (x <= 0real && y <= 0real) || (x >= 0real && y >= 0real) ==> x / y >= 0real,
        (x <= 0real && y >= 0real) || (x >= 0real && y <= 0real) ==> x / y <= 0real,
{
    assert(((x <= 0real && y <= 0real) || (x >= 0real && y >= 0real) ==> x / y >= 0real) && ((x
        <= 0real && y >= 0real) || (x >= 0real && y <= 0real) ==> x / y <= 0real))
        by (nonlinear_arith)
        requires
            y != 0real,
    ;
}

/// An error in units is one of amounts.
pub(crate) proof fn lemma_scaled_error(r: real, x: real, v: real, n: real)
    requires
        size_of(r) == v / power(1074),
        size_of(x) * power(1074) == n,
        size_of(v - n) <= n * eps() + 1real / 2real,
        (x >= 0real && r >= 0real) || (x <= 0real && r <= 0real),
    ensures
        size_of(r - x) <= size_of(x) * eps() + tiny(),
{
    lemma_powers();
    let u = power(1074);
    let e = eps();
    let t = tiny();
    let a = size_of(r);
    let b = size_of(x);
    assert(a * u == v) by (nonlinear_arith)
        requires
            a == v / u,
            u > 0real,
    ;
    assert(a - b <= b * e + t && b - a <= b * e + t) by (nonlinear_arith)
        requires
            a * u == v,
            b * u == n,
            v - n <= n * e + 1real / 2real,
            n - v <= n * e + 1real / 2real,
            t * 2real * u == 1real,
            u > 0real,
    ;
}

impl Double {
    /// A difference is off by little.
    pub proof fn difference_amount(a: Double, b: Double)
        requires
            a.finite(),
            b.finite(),
            size_of(a.amount() - b.amount()) <= power(1000),
        ensures
            a.difference(b).finite(),
            size_of(a.difference(b).amount() - (a.amount() - b.amount())) <= size_of(
                a.amount() - b.amount(),
            ) * eps() + tiny(),
            a.amount() - b.amount() > 0real ==> a.difference(b).amount() >= 0real,
            a.amount() - b.amount() < 0real ==> a.difference(b).amount() <= 0real,
    {
        Double::negation(b);
        lemma_powers();
        let u = power(1074);
        let x = b.units() as real;
        assert(b.negated().units() as real == -x);
        assert((-x) / u == -(x / u)) by (nonlinear_arith)
            requires
                u > 0real,
        ;
        Double::sum_amount(a, b.negated());
    }

    /// The magnitude of a number is the size of its amount.
    pub proof fn magnitude_amount(a: Double)
        requires
            a.finite(),
        ensures
            a.magnitude().finite(),
            a.magnitude().amount() == size_of(a.amount()),
    {
        Double::amounts(a);
        Double::amounts(a.magnitude());
        assert(a.magnitude().code() == a.code());
    }

    /// What a number with a known exponent amounts to.
    pub proof fn known_amount(a: Double, e: int)
        requires
            1 <= e <= 1075,
            !a.negative(),
            a.code() / HIDDEN as int == e,
        ensures
            a.amount() * power((1075 - e) as nat) == (HIDDEN + a.code() % HIDDEN as int) as real,
            a.finite(),
    {
        Double::amounts(a);
        lemma_powers();
        let f = a.code() % HIDDEN as int;
        let q = HIDDEN + f;
        lemma_pow2_adds((e - 1) as nat, (1075 - e) as nat);
        lemma_real_product(q, pow2((e - 1) as nat) as int);
        lemma_real_product(pow2((e - 1) as nat) as int, pow2((1075 - e) as nat) as int);
        lemma_pow2_pos((e - 1) as nat);
        let low = power((e - 1) as nat);
        let high = power((1075 - e) as nat);
        let x = a.amount();
        let y = q as real;
        assert(x * high == y) by (nonlinear_arith)
            requires
                x * (low * high) == y * low,
                low > 0real,
        ;
        vstd::arithmetic::div_mod::lemma_fundamental_div_mod(a.code(), HIDDEN as int);
    }

    /// A number that amounts to `n / 2^k`.
    pub proof fn exact_amount(a: Double, e: int, q: real)
        requires
            1 <= e <= 1075,
            !a.negative(),
            a.code() / HIDDEN as int == e,
            (HIDDEN + a.code() % HIDDEN as int) as real == q * power((1075 - e) as nat),
        ensures
            a.amount() == q,
            a.finite(),
    {
        Double::known_amount(a, e);
        lemma_pow2_pos((1075 - e) as nat);
        let p = power((1075 - e) as nat);
        let x = a.amount();
        assert(x == q) by (nonlinear_arith)
            requires
                x * p == q * p,
                p > 0real,
        ;
    }
}

/// `a` is finite and off from `x` by at most `k` roundings of one.
pub open spec fn near(a: Double, x: real, k: real) -> bool {
    a.finite() && size_of(a.amount() - x) <= k * eps()
}

/// A bound on what the calculus of errors is used for.
pub open spec fn modest(x: real) -> bool {
    0real <= x <= 1_048_576real
}

proof fn lemma_small()
    ensures
        eps() > 0real,
        eps() * 9_007_199_254_740_992real == 1real,
        eps() <= 1real / 9_000_000_000_000_000real,
        tiny() > 0real,
        tiny() <= eps() * eps(),
        power(1000) >= 1_000_000_000_000_000_000real,
{
    lemma_powers();
    lemma_inverse(power(53));
    lemma2_to64();
    lemma_pow2_strictly_increases(64, 1000);
}

pub proof fn lemma_grow(a: real, b: real, c: real)
    requires
        a <= b,
        0real <= c,
    ensures
        a * c <= b * c,
        c * a <= c * b,
{
    assert(a * c <= b * c && c * a <= c * b) by (nonlinear_arith)
        requires
            a <= b,
            0real <= c,
    ;
}

pub proof fn lemma_grow_both(a: real, m: real, b: real, n: real)
    requires
        0real <= a <= m,
        0real <= b <= n,
    ensures
        0real <= a * b <= m * n,
{
    lemma_grow(a, m, b);
    lemma_grow(b, n, m);
    lemma_grow(0real, a, b);
    assert(0real * b == 0real) by (nonlinear_arith);
    assert(m * b == b * m) by (nonlinear_arith);
    assert(m * n == n * m) by (nonlinear_arith);
}

pub proof fn lemma_spread(a: real, b: real, c: real)
    ensures
        (a + b) * c == a * c + b * c,
        (a - b) * c == a * c - b * c,
        c * (a + b) == c * a + c * b,
        c * (a - b) == c * a - c * b,
        a * c == c * a,
{
    assert((a + b) * c == a * c + b * c) by (nonlinear_arith);
    assert((a - b) * c == a * c - b * c) by (nonlinear_arith);
    assert(c * (a + b) == c * a + c * b) by (nonlinear_arith);
    assert(c * (a - b) == c * a - c * b) by (nonlinear_arith);
    assert(a * c == c * a) by (nonlinear_arith);
}

/// So many roundings are nothing against one.
proof fn lemma_few(k: real)
    requires
        0real <= k <= 4_400_000_000_000real,
    ensures
        0real <= k * eps() <= 1real / 2_000real,
        0real <= (k * eps()) * eps() <= eps() / 2_000real,
{
    lemma_small();
    let e = eps();
    lemma_grow(k, 4_400_000_000_000real, e);
    lemma_grow(0real, k, e);
    assert(0real * e == 0real);
    lemma_grow(k * e, 1real / 2_000real, e);
    lemma_grow(0real, k * e, e);
}

pub proof fn near_sum(a: Double, x: real, ka: real, b: Double, y: real, kb: real, most: real)
    requires
        near(a, x, ka),
        near(b, y, kb),
        modest(ka),
        modest(kb),
        modest(most),
        size_of(x + y) <= most,
    ensures
        near(a.sum(b), x + y, ka + kb + most + 1real),
{
    lemma_small();
    let e = eps();
    let z = a.amount() + b.amount();
    let k = ka + kb;
    lemma_spread(ka, kb, e);
    lemma_few(k);
    assert(size_of(z - (x + y)) <= k * e);
    assert(size_of(z) <= most + k * e);
    Double::sum_amount(a, b);
    lemma_grow(size_of(z), most + k * e, e);
    lemma_spread(most, k * e, e);
    lemma_few(1real);
    lemma_spread(k, most, e);
    lemma_spread(k + most, 1real, e);
}

pub proof fn near_negated(a: Double, x: real, k: real)
    requires
        near(a, x, k),
    ensures
        near(a.negated(), -x, k),
        a.negated().amount() == -a.amount(),
{
    Double::negation(a);
    lemma_powers();
    let u = power(1074);
    let v = a.units() as real;
    assert(a.negated().units() as real == -v);
    assert((-v) / u == -(v / u)) by (nonlinear_arith)
        requires
            u > 0real,
    ;
}

pub proof fn near_difference(
    a: Double,
    x: real,
    ka: real,
    b: Double,
    y: real,
    kb: real,
    most: real,
)
    requires
        near(a, x, ka),
        near(b, y, kb),
        modest(ka),
        modest(kb),
        modest(most),
        size_of(x - y) <= most,
    ensures
        near(a.difference(b), x - y, ka + kb + most + 1real),
{
    near_negated(b, y, kb);
    near_sum(a, x, ka, b.negated(), -y, kb, most);
}

/// A product of numbers that are a little off.
pub proof fn lemma_product_error(p: real, x: real, dx: real, q: real, y: real, dy: real, m: real, n: real)
    requires
        size_of(p - x) <= dx,
        size_of(q - y) <= dy,
        size_of(x) <= m,
        size_of(y) <= n,
    ensures
        size_of(p * q - x * y) <= dx * n + m * dy + dx * dy,
{
    let a = p - x;
    let b = q - y;
    lemma_size_product(a, y);
    lemma_size_product(x, b);
    lemma_size_product(a, b);
    assert(p * q - x * y == a * y + x * b + a * b) by (nonlinear_arith)
        requires
            a == p - x,
            b == q - y,
    ;
    lemma_grow_both(size_of(a), dx, size_of(y), n);
    lemma_grow_both(size_of(x), m, size_of(b), dy);
    lemma_grow_both(size_of(a), dx, size_of(b), dy);
}

pub proof fn near_product(
    a: Double,
    x: real,
    ka: real,
    b: Double,
    y: real,
    kb: real,
    m: real,
    n: real,
)
    requires
        near(a, x, ka),
        near(b, y, kb),
        modest(ka),
        modest(kb),
        modest(m),
        modest(n),
        size_of(x) <= m,
        size_of(y) <= n,
    ensures
        near(a.product(b), x * y, ka * n + kb * m + m * n + 1real),
{
    lemma_small();
    let e = eps();
    let z = a.amount() * b.amount();
    let k = ka * n + kb * m;
    let kk = ka * kb;
    let mn = m * n;
    lemma_product_error(a.amount(), x, ka * e, b.amount(), y, kb * e, m, n);
    lemma_size_product(x, y);
    lemma_grow_both(size_of(x), m, size_of(y), n);
    lemma_grow_both(ka, 1_048_576real, n, 1_048_576real);
    lemma_grow_both(kb, 1_048_576real, m, 1_048_576real);
    lemma_grow_both(ka, 1_048_576real, kb, 1_048_576real);
    lemma_grow_both(m, 1_048_576real, n, 1_048_576real);
    assert((ka * e) * n == (ka * n) * e) by (nonlinear_arith);
    assert(m * (kb * e) == (kb * m) * e) by (nonlinear_arith);
    assert((ka * e) * (kb * e) == (kk * e) * e) by (nonlinear_arith)
        requires
            kk == ka * kb,
    ;
    lemma_spread(ka * n, kb * m, e);
    lemma_few(k);
    lemma_few(kk);
    lemma_few(1real);
    assert(size_of(z - x * y) <= k * e + (kk * e) * e);
    assert(size_of(z) <= mn + k * e + (kk * e) * e);
    Double::product_amount(a, b);
    lemma_grow(size_of(z), mn + k * e + (kk * e) * e, e);
    lemma_spread(mn + k * e, (kk * e) * e, e);
    lemma_spread(mn, k * e, e);
    lemma_grow((kk * e) * e, 1real / 2_000real, e);
    lemma_grow(e, 1real / 2_000real, e);
    assert((1real / 2_000real) * e == e / 2_000real) by (nonlinear_arith);
    let r = a.product(b).amount();
    assert(size_of(r - z) <= mn * e + (k * e) * e + ((kk * e) * e) * e + e * e);
    assert(size_of(r - x * y) <= k * e + mn * e + e);
    lemma_spread(k, mn, e);
    lemma_spread(k + mn, 1real, e);
}

impl Double {
    /// Rounding to a whole number is off by at most a half.
    pub proof fn rounded_amount(a: Double)
        requires
            a.finite(),
            !a.negative(),
            a.amount() <= 1_000_000_000_000real,
        ensures
            size_of(a.rounded() as real - a.amount()) <= 1real / 2real,
    {
        lemma_powers();
        lemma_pow2_pos(1074);
        Double::amounts(a);
        Double::sizes(a);
        let u = pow2(1074) as int;
        let ru = power(1074);
        let x = a.units();
        let n = a.nearest_integer();
        let top = 2 * x + u;
        let d = 2 * u;
        assert(d > 0);
        vstd::arithmetic::div_mod::lemma_fundamental_div_mod(top, d);
        vstd::arithmetic::div_mod::lemma_mod_bound(top, d);
        assert(n == top / d);
        let r = top % d;
        lemma_real_product(d, n);
        let rn = n as real;
        assert((d * n) as real == (2real * ru) * rn);
        assert(top as real == 2real * (x as real) + ru);
        assert(2real * (a.amount() * ru) + ru == (2real * ru) * rn + r as real);
        assert(0real <= r as real && (r as real) < 2real * ru);
        let y = a.amount();
        lemma_whole_near(y, rn, ru, r as real);
        assert(rn <= 1_000_000_000_001real);
        assert(n <= 1_000_000_000_001);
        assert(n > -1) by {
            assert(rn > -1real);
        }
    }
}

proof fn lemma_whole_near(y: real, n: real, u: real, r: real)
    requires
        u > 0real,
        2real * (y * u) + u == (2real * u) * n + r,
        0real <= r < 2real * u,
    ensures
        n - 1real / 2real <= y < n + 1real / 2real,
{
    let p = y * u;
    let q = n * u;
    assert((2real * u) * n == 2real * q) by (nonlinear_arith)
        requires
            q == n * u,
    ;
    let h = 1real / 2real;
    lemma_spread(n, h, u);
    assert(h * u == u / 2real) by (nonlinear_arith)
        requires
            h == 1real / 2real,
    ;
    if y < n - h {
        lemma_strict(y, n - h, u);
    }
    if y >= n + h {
        lemma_grow(n + h, y, u);
    }
}

proof fn lemma_strict(a: real, b: real, c: real)
    requires
        a < b,
        0real < c,
    ensures
        a * c < b * c,
{
    assert(a * c < b * c) by (nonlinear_arith)
        requires
            a < b,
            0real < c,
    ;
}

} // verus!
