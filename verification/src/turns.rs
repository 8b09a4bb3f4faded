//! What whole turns leave of a number.
use crate::amount::{
    eps, lemma_grow, lemma_powers, lemma_real_error, lemma_real_product, lemma_relative,
    lemma_scaled_error, power, size_of,
};
use crate::double::Double;
use crate::light::slack;
use vstd::arithmetic::div_mod::*;
use vstd::arithmetic::power2::*;
use vstd::prelude::*;

verus! {

/// An ordinary period has room for its remainders.
proof fn lemma_room(period: Double)
    requires
        period.finite(),
        0real < period.amount() <= 1_000_000real,
    ensures
        0 < period.size() <= pow2(2090),
        period.size() as real == period.amount() * power(1074),
{
    Double::amounts(period);
    Double::sizes(period);
    lemma_powers();
    lemma2_to64();
    let u = power(1074);
    let v = period.size() as real;
    crate::rates::lemma_divided(v, u);
    lemma_grow(period.amount(), 1_048_576real, u);
    lemma_pow2_adds(20, 1074);
    lemma_real_product(pow2(20) as int, pow2(1074) as int);
    lemma_pow2_strictly_increases(1094, 2090);
    assert(v <= power(1094));
}

/// What is left of `a` and how often the period was taken away.
proof fn lemma_left(a: Double, period: Double) -> (times: int)
    requires
        a.finite(),
        period.finite(),
        0real < period.amount() <= 1_000_000real,
    ensures
        a.remainder(period).finite(),
        size_of(
            a.remainder(period).amount() - (a.amount() - times as real * period.amount()),
        ) <= slack() / 2real,
        size_of(a.amount() - times as real * period.amount()) <= period.amount(),
{
    lemma_room(period);
    crate::light::lemma_small();
    lemma_powers();
    Double::amounts(a);
    Double::sizes(a);
    let u = power(1074);
    let whole = a.size();
    let v = period.size();
    let n = whole % v;
    let q = whole / v;
    lemma_fundamental_div_mod(whole, v);
    lemma_mod_bound(whole, v);
    lemma_relative(n, 1);
    let code = crate::double::nearest(n, 1);
    let rest = a.remainder(period);
    assert(period.code() != 0);
    assert(rest == Double::signed(a.negative(), code));
    assert(rest.code() == code && rest.negative() == a.negative() && rest.finite());
    let size = crate::double::code_units(code);
    assert(1 * size == size);
    lemma_real_error(n, 1, size);
    assert(n as real / (1 as real) == n as real);
    Double::amounts(rest);
    let exact = n as real / u;
    let p = period.amount();
    crate::rates::lemma_divided(n as real, u);
    crate::rates::lemma_divided(whole as real, u);
    lemma_real_product(v, q);
    let k = q as real;
    assert(whole as real / u == k * p + exact) by (nonlinear_arith)
        requires
            (whole as real / u) * u == whole as real,
            exact * u == n as real,
            whole as real == (p * u) * k + n as real,
            u > 0real,
    ;
    assert(0real <= exact <= p) by (nonlinear_arith)
        requires
            exact * u == n as real,
            0real <= n as real <= p * u,
            u > 0real,
    ;
    let x = if a.negative() {
        -exact
    } else {
        exact
    };
    lemma_scaled_error(rest.amount(), x, size as real, n as real);
    lemma_grow(exact, 1_000_000real, eps());
    crate::light::lemma_few(1_000_001real);
    let times = if a.negative() {
        -q
    } else {
        q
    };
    assert((-k) * p == -(k * p)) by (nonlinear_arith);
    times
}

impl Double {
    /// A number is moved by whole periods, and into the first of them.
    pub proof fn wrapping_takes_whole_periods(a: Double, period: Double) -> (times: int)
        requires
            a.finite(),
            period.finite(),
            0real < period.amount() <= 1_000_000real,
        ensures
            a.wrapped(period).finite(),
            size_of(
                a.wrapped(period).amount() - (a.amount() - times as real * period.amount()),
            ) <= slack(),
            -slack() <= a.wrapped(period).amount() <= period.amount() + slack(),
    {
        let times = lemma_left(a, period);
        let rest = a.remainder(period);
        let p = period.amount();
        let k = times as real;
        crate::light::lemma_small();
        Double::amounts_keep_order(rest, Double { bits: 0 });
        if rest.less(Double { bits: 0 }) {
            Double::magnitude_amount(period);
            let z = rest.amount() + p;
            assert(size_of(z) <= 1_000_001real);
            Double::sum_amount(rest, period.magnitude());
            lemma_grow(size_of(z), 1_000_001real, eps());
            crate::light::lemma_few(1_000_002real);
            assert((k - 1real) * p == k * p - p) by (nonlinear_arith);
            assert((times - 1) as real == k - 1real);
            times - 1
        } else {
            times
        }
    }
}

} // verus!
