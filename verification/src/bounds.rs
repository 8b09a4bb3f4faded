//! How far rounding can carry a result.
use crate::double::{Double, HIDDEN, INFINITE};
use vstd::arithmetic::power2::*;
use vstd::prelude::*;

verus! {

/// Exact size of one, in units.
pub open spec fn unit() -> int {
    pow2(1074) as int
}

/// Every number with few digits is the value of some code.
proof fn lemma_short(n: int, j: nat) -> (code: int)
    requires
        0 <= n < 2 * HIDDEN,
    ensures
        0 <= code,
        crate::double::code_units(code) == n * pow2(j),
    decreases j,
{
    if j == 0 || n >= HIDDEN {
        crate::double::lemma_code_of(n, j as int);
        assert(0 <= j * HIDDEN) by (nonlinear_arith);
        j * HIDDEN + n
    } else {
        lemma_pow2_unfold(j);
        let p = pow2((j - 1) as nat) as int;
        assert((2 * n) * p == n * (2 * p)) by (nonlinear_arith);
        lemma_short(2 * n, (j - 1) as nat)
    }
}

/// Rounding does not pass a number with few digits on the way up.
pub proof fn lemma_below(n: int, d: int, q: int, j: nat)
    requires
        n >= 0,
        d > 0,
        0 <= q < 2 * HIDDEN,
        n <= d * (q * pow2(j)),
    ensures
        0 <= crate::double::nearest(n, d) <= INFINITE,
        0 <= crate::double::code_units(crate::double::nearest(n, d)) <= q * pow2(j),
        q * pow2(j) < pow2(2098) ==> crate::double::nearest(n, d) < INFINITE,
{
    let code = lemma_short(q, j);
    let most = q * pow2(j);
    let c = crate::double::nearest(n, d);
    crate::double::lemma_infinite_units();
    crate::double::lemma_nearest_exists(n, d);
    crate::double::lemma_code_order(0, c);
    assert(crate::double::code_units(0) == 0);
    if code <= INFINITE {
        crate::double::lemma_nearest_exact(d * most, d, code);
        crate::double::lemma_nearest_is(d * most, d, code);
        assert(n * d <= (d * most) * d) by (nonlinear_arith)
            requires
                n <= d * most,
                d > 0,
        ;
        crate::double::lemma_nearest_monotone(n, d, d * most, d);
        crate::double::lemma_code_order(c, code);
    } else {
        crate::double::lemma_code_order(INFINITE as int, code);
        crate::double::lemma_code_order(c, INFINITE as int);
    }
    if most < pow2(2098) && c == INFINITE {
        assert(false);
    }
}

/// Rounding does not pass a number with few digits on the way down.
pub proof fn lemma_above(n: int, d: int, q: int, j: nat)
    requires
        n >= 0,
        d > 0,
        0 <= q < 2 * HIDDEN,
        d * (q * pow2(j)) <= n,
        q * pow2(j) <= pow2(2098),
    ensures
        0 <= crate::double::nearest(n, d) <= INFINITE,
        crate::double::code_units(crate::double::nearest(n, d)) >= q * pow2(j),
{
    let code = lemma_short(q, j);
    let least = q * pow2(j);
    crate::double::lemma_infinite_units();
    crate::double::lemma_nearest_exists(n, d);
    if code > INFINITE {
        crate::double::lemma_code_order(INFINITE as int, code);
    }
    crate::double::lemma_nearest_exact(d * least, d, code);
    crate::double::lemma_nearest_is(d * least, d, code);
    assert(0 <= d * least) by (nonlinear_arith)
        requires
            0 <= least,
            d > 0,
    ;
    assert((d * least) * d <= n * d) by (nonlinear_arith)
        requires
            d * least <= n,
            d > 0,
    ;
    crate::double::lemma_nearest_monotone(d * least, d, n, d);
    crate::double::lemma_code_order(code, crate::double::nearest(n, d));
}

/// Small numbers are rounded by little.
pub proof fn lemma_close(n: int, d: int, top: int)
    requires
        n >= 0,
        d > 0,
        2 <= top <= 1100,
        n <= d * pow2((top + 51) as nat),
    ensures
        0 <= crate::double::nearest(n, d) < INFINITE,
        -(d * pow2((top - 2) as nat)) <= d * crate::double::code_units(crate::double::nearest(n, d)) - n <= d * pow2(
            (top - 2) as nat,
        ),
        0 <= crate::double::code_units(crate::double::nearest(n, d)) <= pow2((top + 51) as nat),
{
    let c = crate::double::nearest(n, d);
    let step = pow2((top - 2) as nat) as int;
    let most = pow2((top + 51) as nat) as int;
    lemma_pow2_strictly_increases((top + 51) as nat, 2098);
    assert(1 * most == most) by (nonlinear_arith);
    lemma_below(n, d, 1, (top + 51) as nat);
    crate::double::lemma_nearest_exists(n, d);
    crate::double::lemma_binade(top - 1);
    if c > top * HIDDEN {
        crate::double::lemma_code_order(top * HIDDEN, c);
    }
    assert(c < (top + 1) * HIDDEN) by (nonlinear_arith)
        requires
            c <= top * HIDDEN,
    ;
    lemma_pow2_unfold((top - 1) as nat);
    let v = crate::double::code_units(c);
    let up = crate::double::code_units(c + 1) - v;
    crate::double::lemma_spacing(c, top + 1);
    let high = d * (v + crate::double::code_units(c + 1));
    assert(high == 2 * (d * v) + d * up) by (nonlinear_arith)
        requires
            high == d * (v + (v + up)),
    ;
    assert(d * up <= 2 * (d * step)) by (nonlinear_arith)
        requires
            up <= 2 * step,
            d > 0,
    ;
    if c > 0 {
        crate::double::lemma_spacing(c - 1, top + 1);
        let down = v - crate::double::code_units(c - 1);
        let low = d * (crate::double::code_units(c - 1) + v);
        assert(low == 2 * (d * v) - d * down) by (nonlinear_arith)
            requires
                low == d * ((v - down) + v),
        ;
        assert(d * down <= 2 * (d * step)) by (nonlinear_arith)
            requires
                down <= 2 * step,
                d > 0,
        ;
    } else {
        assert(v == 0);
        assert(d * 0 == 0) by (nonlinear_arith);
        assert(0 <= d * step) by (nonlinear_arith)
            requires
                d > 0,
                step >= 0,
        ;
    }
}

impl Double {
    /// Exact size in units.
    pub open spec fn size(self) -> int {
        crate::double::code_units(self.code())
    }

    /// Sizes of numbers.
    pub proof fn sizes(a: Double)
        ensures
            a.size() >= 0,
            a.finite() ==> a.size() < pow2(2098),
            a.code() == 0 <==> a.size() == 0,
            a.units() == if a.negative() {
                -a.size()
            } else {
                a.size()
            },
    {
        crate::double::lemma_code_order(0, a.code());
        assert(crate::double::code_units(0) == 0);
        crate::double::lemma_infinite_units();
        if a.finite() {
            crate::double::lemma_code_order(a.code(), INFINITE as int);
        }
    }

    /// Sizes and codes have one order.
    pub proof fn sizes_keep_order(a: Double, b: Double)
        ensures
            a.code() <= b.code() <==> a.size() <= b.size(),
    {
        if a.code() <= b.code() {
            crate::double::lemma_code_order(a.code(), b.code());
        } else {
            crate::double::lemma_code_order(b.code(), a.code());
        }
    }

    /// What a product of finite numbers is.
    pub proof fn product_parts(a: Double, b: Double)
        requires
            a.finite(),
            b.finite(),
        ensures
            !a.product(b).nan(),
            a.product(b).code() == crate::double::nearest(a.size() * b.size(), unit()),
            a.product(b).negative() == (a.negative() != b.negative()),
            a.size() * b.size() >= 0,
            unit() > 0,
    {
        Double::sizes(a);
        Double::sizes(b);
        lemma_pow2_pos(1074);
        assert(a.size() * b.size() >= 0) by (nonlinear_arith)
            requires
                a.size() >= 0,
                b.size() >= 0,
        ;
        crate::double::lemma_nearest_exists(a.size() * b.size(), unit());
    }

    /// What a quotient of finite numbers is.
    pub proof fn quotient_parts(a: Double, b: Double)
        requires
            a.finite(),
            b.finite(),
            b.code() != 0,
        ensures
            !a.quotient(b).nan(),
            a.quotient(b).code() == crate::double::nearest(a.size() * unit(), b.size()),
            a.quotient(b).negative() == (a.negative() != b.negative()),
            a.size() * unit() >= 0,
            b.size() > 0,
    {
        Double::sizes(a);
        Double::sizes(b);
        lemma_pow2_pos(1074);
        assert(a.size() * unit() >= 0) by (nonlinear_arith)
            requires
                a.size() >= 0,
                unit() >= 0,
        ;
        crate::double::lemma_nearest_exists(a.size() * unit(), b.size());
    }

    pub proof fn products_below(a: Double, b: Double, q: int, j: nat)
        requires
            a.finite(),
            b.finite(),
            0 <= q < 2 * HIDDEN,
            a.size() * b.size() <= unit() * (q * pow2(j)),
        ensures
            !a.product(b).nan(),
            0 <= a.product(b).size() <= q * pow2(j),
            q * pow2(j) < pow2(2098) ==> a.product(b).finite(),
            a.product(b).negative() == (a.negative() != b.negative()),
    {
        Double::product_parts(a, b);
        lemma_below(a.size() * b.size(), unit(), q, j);
    }

    pub proof fn quotients_below(a: Double, b: Double, q: int, j: nat)
        requires
            a.finite(),
            b.finite(),
            b.code() != 0,
            0 <= q < 2 * HIDDEN,
            a.size() * unit() <= b.size() * (q * pow2(j)),
        ensures
            !a.quotient(b).nan(),
            0 <= a.quotient(b).size() <= q * pow2(j),
            q * pow2(j) < pow2(2098) ==> a.quotient(b).finite(),
            a.quotient(b).negative() == (a.negative() != b.negative()),
    {
        Double::quotient_parts(a, b);
        lemma_below(a.size() * unit(), b.size(), q, j);
    }

    pub proof fn quotients_above(a: Double, b: Double, q: int, j: nat)
        requires
            a.finite(),
            b.finite(),
            b.code() != 0,
            0 <= q < 2 * HIDDEN,
            b.size() * (q * pow2(j)) <= a.size() * unit(),
            q * pow2(j) <= pow2(2098),
        ensures
            !a.quotient(b).nan(),
            a.quotient(b).size() >= q * pow2(j),
            a.quotient(b).negative() == (a.negative() != b.negative()),
    {
        Double::quotient_parts(a, b);
        lemma_above(a.size() * unit(), b.size(), q, j);
    }

    pub proof fn products_close(a: Double, b: Double, top: int)
        requires
            a.finite(),
            b.finite(),
            2 <= top <= 1100,
            a.size() * b.size() <= unit() * pow2((top + 51) as nat),
        ensures
            a.product(b).finite(),
            a.product(b).negative() == (a.negative() != b.negative()),
            -(unit() * pow2((top - 2) as nat)) <= unit() * a.product(b).size() - a.size()
                * b.size() <= unit() * pow2((top - 2) as nat),
            0 <= a.product(b).size() <= pow2((top + 51) as nat),
    {
        Double::product_parts(a, b);
        lemma_close(a.size() * b.size(), unit(), top);
    }

    /// Sums of small numbers are rounded by little.
    pub proof fn sums_close(a: Double, b: Double, top: int)
        requires
            a.finite(),
            b.finite(),
            2 <= top <= 1100,
            -pow2((top + 51) as nat) <= a.units() + b.units() <= pow2((top + 51) as nat),
        ensures
            a.sum(b).finite(),
            -pow2((top - 2) as nat) <= a.sum(b).units() - (a.units() + b.units()) <= pow2(
                (top - 2) as nat,
            ),
            -pow2((top + 51) as nat) <= a.sum(b).units() <= pow2((top + 51) as nat),
            a.units() + b.units() > 0 ==> !a.sum(b).negative(),
            a.units() + b.units() < 0 ==> a.sum(b).negative(),
            a.units() + b.units() == 0 ==> a.sum(b).code() == 0,
    {
        let exact = a.units() + b.units();
        let size = if exact < 0 {
            -exact
        } else {
            exact
        };
        Double::lemma_sum_place(a, b);
        Double::sizes(a.sum(b));
        lemma_pow2_pos((top - 2) as nat);
        assert(crate::double::code_units(0) == 0);
        lemma_close(size, 1, top);
    }

    /// Sums do not pass a number with few digits.
    pub proof fn sums_below(a: Double, b: Double, q: int, j: nat)
        requires
            a.finite(),
            b.finite(),
            0 <= q < 2 * HIDDEN,
            -(q * pow2(j)) <= a.units() + b.units() <= q * pow2(j),
        ensures
            !a.sum(b).nan(),
            0 <= a.sum(b).size() <= q * pow2(j),
            q * pow2(j) < pow2(2098) ==> a.sum(b).finite(),
    {
        let exact = a.units() + b.units();
        let size = if exact < 0 {
            -exact
        } else {
            exact
        };
        Double::lemma_sum_place(a, b);
        Double::sizes(a.sum(b));
        assert(crate::double::code_units(0) == 0);
        assert(1 * (q * pow2(j)) == q * pow2(j));
        lemma_below(size, 1, q, j);
    }

    /// Numbers of one sign add to no less than their sum, up to a number with few digits.
    pub proof fn sums_above(a: Double, b: Double, q: int, j: nat)
        requires
            !a.nan(),
            !b.nan(),
            a.negative() == b.negative(),
            0 < q < 2 * HIDDEN,
            q * pow2(j) <= a.size() + b.size(),
            q * pow2(j) <= pow2(2098),
        ensures
            !a.sum(b).nan(),
            a.sum(b).negative() == a.negative(),
            a.sum(b).size() >= q * pow2(j),
    {
        lemma_pow2_pos(j);
        assert(q * pow2(j) > 0) by (nonlinear_arith)
            requires
                q > 0,
                pow2(j) > 0,
        ;
        Double::sizes(a);
        Double::sizes(b);
        crate::double::lemma_infinite_units();
        if a.finite() && b.finite() {
            Double::lemma_sum_place(a, b);
            assert(1 * (q * pow2(j)) == q * pow2(j));
            lemma_above(a.size() + b.size(), 1, q, j);
        }
    }

    /// A number of size up to one times another gives no more than the other.
    pub proof fn products_shrink(a: Double, b: Double)
        requires
            a.finite(),
            b.finite(),
            a.size() <= unit(),
        ensures
            a.product(b).finite(),
            a.product(b).code() <= b.code(),
            a.product(b).size() <= b.size(),
            a.product(b).negative() == (a.negative() != b.negative()),
    {
        Double::product_parts(a, b);
        Double::sizes(a);
        Double::sizes(b);
        let x = a.size();
        let y = b.size();
        let u = unit();
        assert(x * y <= u * y && (x * y) * u <= (u * y) * u) by (nonlinear_arith)
            requires
                0 <= x <= u,
                0 <= y,
                0 < u,
        ;
        crate::double::lemma_nearest_exact(u * y, u, b.code());
        crate::double::lemma_nearest_is(u * y, u, b.code());
        crate::double::lemma_nearest_monotone(x * y, u, u * y, u);
        Double::sizes_keep_order(a.product(b), b);
    }

    /// A number over one of size at least one gives no more than the number.
    pub proof fn quotients_shrink(a: Double, b: Double)
        requires
            a.finite(),
            b.finite(),
            unit() <= b.size(),
        ensures
            a.quotient(b).finite(),
            a.quotient(b).code() <= a.code(),
            a.quotient(b).size() <= a.size(),
            a.quotient(b).negative() == (a.negative() != b.negative()),
    {
        lemma_pow2_pos(1074);
        Double::sizes(a);
        Double::sizes(b);
        Double::quotient_parts(a, b);
        let x = a.size();
        let y = b.size();
        let u = unit();
        assert(x * u <= y * x && (x * u) * y <= (y * x) * y) by (nonlinear_arith)
            requires
                0 <= x,
                0 < u <= y,
        ;
        crate::double::lemma_nearest_exact(y * x, y, a.code());
        crate::double::lemma_nearest_is(y * x, y, a.code());
        crate::double::lemma_nearest_monotone(x * u, y, y * x, y);
        Double::sizes_keep_order(a.quotient(b), a);
    }

    /// A sum that is not far below zero is not minus infinity.
    pub proof fn sums_not_low(a: Double, b: Double, q: int, j: nat)
        requires
            a.finite(),
            b.finite(),
            0 <= q < 2 * HIDDEN,
            -(q * pow2(j)) <= a.units() + b.units(),
            q * pow2(j) < pow2(2098),
        ensures
            !a.sum(b).nan(),
            a.sum(b).negative() ==> a.sum(b).finite(),
    {
        let exact = a.units() + b.units();
        Double::lemma_sum_place(a, b);
        if exact < 0 {
            assert(1 * (q * pow2(j)) == q * pow2(j));
            lemma_below(-exact, 1, q, j);
        }
    }

    /// What a number with the other sign is.
    pub proof fn negation(a: Double)
        requires
            !a.nan(),
        ensures
            a.negated().code() == a.code(),
            a.negated().negative() == !a.negative(),
            a.negated().units() == -a.units(),
    {
    }

    /// Whole numbers with few digits are exact.
    pub proof fn counts_are_exact(n: nat)
        requires
            n < 2 * HIDDEN,
        ensures
            Double::of_nat(n).finite(),
            !Double::of_nat(n).negative(),
            Double::of_nat(n).size() == n * unit(),
            Double::of_nat(n).units() == n * unit(),
    {
        let exact = n * unit();
        let code = lemma_short(n as int, 1074);
        crate::double::lemma_infinite_units();
        lemma2_to64();
        lemma2_to64_rest();
        lemma_pow2_adds(53, 1074);
        lemma_pow2_strictly_increases(1127, 2098);
        lemma_pow2_pos(1074);
        assert(exact <= pow2(53) * unit()) by (nonlinear_arith)
            requires
                exact == n * unit(),
                n <= pow2(53),
                unit() > 0,
        ;
        if code >= INFINITE {
            crate::double::lemma_code_order(INFINITE as int, code);
        }
        crate::double::lemma_nearest_exact(exact, 1, code);
        crate::double::lemma_nearest_is(exact, 1, code);
        Double::sizes(Double::of_nat(n));
    }

    /// Adding and doubling whole numbers with few digits is exact.
    pub proof fn counts_add(a: nat, b: nat)
        requires
            a + b < HIDDEN,
        ensures
            Double::of_nat(a).sum(Double::of_nat(b)) == Double::of_nat(a + b),
            (Double { bits: 0x4000_0000_0000_0000 }).product(Double::of_nat(a)) == Double::of_nat(
                2 * a,
            ),
    {
        let x = Double::of_nat(a);
        let y = Double::of_nat(b);
        let two = Double { bits: 0x4000_0000_0000_0000 };
        let u = unit();
        lemma_pow2_pos(1074);
        Double::counts_are_exact(a);
        Double::counts_are_exact(b);
        Double::counts_are_exact(a + b);
        Double::counts_are_exact(2 * a);
        assert((a + b) * u == a * u + b * u) by (nonlinear_arith);
        Double::lemma_sum_place(x, y);
        let total = Double::of_nat(a + b);
        crate::double::lemma_nearest_zero(1);
        assert((a * u + b * u == 0) ==> a + b == 0) by (nonlinear_arith)
            requires
                u > 0,
                a >= 0,
                b >= 0,
        ;
        assert(x.sum(y) == total) by {
            assert(x.units() + y.units() == (a + b) * u);
            if (a + b) * u == 0 {
                assert(0 * u == 0) by (nonlinear_arith);
            }
        }
        Double::product_parts(two, x);
        crate::double::lemma_binade(1023);
        lemma_pow2_unfold(1075);
        let twice = Double::of_nat(2 * a);
        assert((2 * u) * (a * u) == u * ((2 * a) * u)) by (nonlinear_arith);
        crate::double::lemma_nearest_exact(u * ((2 * a) * u), u, twice.code());
        crate::double::lemma_nearest_is(u * ((2 * a) * u), u, twice.code());
    }
}

} // verus!
