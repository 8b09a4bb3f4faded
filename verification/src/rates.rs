//! How closely rates and parts of a span are computed.
use crate::amount::{eps, lemma_grow, lemma_grow_both, lemma_powers, lemma_spread, near, power, size_of, tiny};
use crate::double::Double;
use crate::smooth::broad;
use vstd::arithmetic::power2::*;
use vstd::prelude::*;

verus! {

/// The computed secant follows the exact one.
#[verifier::spinoff_prover]
pub proof fn lemma_rise(a: Double, b: Double, width: nat, most: real)
    requires
        crate::curve::shown(a),
        crate::curve::shown(b),
        a.amount() <= most,
        b.amount() <= most,
        broad(most),
        1 <= width <= 86_400,
    ensures
        ({
            let p = (b.amount() - a.amount()) / (width as real);
            &&& crate::slopes::follows(b.difference(a).quotient(Double::of_nat(width)), p)
            &&& size_of(p) <= most
            &&& p * (width as real) == b.amount() - a.amount()
        }),
{
    let w = width as real;
    let gap = b.difference(a);
    let exact = b.amount() - a.amount();
    let p = exact / w;
    let e = eps();
    let t = tiny();
    crate::smooth::lemma_broad(most);
    lemma_powers();
    Double::amounts(a);
    Double::amounts(b);
    crate::smooth::lemma_count(width);
    Double::difference_amount(b, a);
    let g = gap.amount();
    lemma_divided(exact, w);
    let q = g / w;
    lemma_divided(g, w);
    crate::amount::lemma_size_product(p, w);
    crate::amount::lemma_size_product(q, w);
    lemma_grow(1real, w, size_of(p));
    lemma_grow(1real, w, size_of(q));
    lemma_spread(w, w, size_of(p));
    lemma_spread(w, w, size_of(q));
    assert(size_of(p) <= most);
    // Against the exact secant.
    let sp = size_of(p);
    let d = q - p;
    crate::amount::lemma_size_product(d, w);
    lemma_spread(q, p, w);
    assert(d * w == g - exact);
    assert(size_of(d) * w <= (sp * w) * e + t);
    assert((sp * w) * e == (sp * e) * w) by (nonlinear_arith);
    lemma_grow(1real, w, t);
    lemma_spread(w, w, t);
    lemma_spread(sp * e, t, w);
    assert(size_of(d) * w <= (sp * e + t) * w);
    lemma_cancel_order(size_of(d), sp * e + t, w);
    lemma_grow(e, 1real, sp);
    assert(size_of(q) <= 2real * sp + t);
    assert(size_of(q) <= 1_000_000real * most);
    Double::quotient_amount(gap, Double::of_nat(width));
    lemma_grow(size_of(q), 2real * sp + t, e);
    lemma_spread(2real * sp, t, e);
    lemma_grow(e, 1real, t);
    // (2 sp) e is too much: use |q| <= sp + sp e + t.
    lemma_grow(size_of(q), sp + sp * e + t, e);
    lemma_spread(sp + sp * e, t, e);
    lemma_spread(sp, sp * e, e);
    lemma_grow_both(sp, sp, e, e);
    lemma_grow(e, 1real / 2real, sp * e);
    lemma_spread(e, e, sp * e);
    lemma_spread(sp, sp, e);
    assert((3real * e) * sp == 3real * (sp * e)) by (nonlinear_arith);
    assert((1real / 2real) * (sp * e) == (sp * e) / 2real) by (nonlinear_arith);
    lemma_grow_both(sp, sp, e, e);
    // Signs.
    lemma2_to64();
    assert(pow2(0) <= width);
    crate::curve::lemma_secant(a, b, width, 0);
    lemma_sign(a, b, w);
}

/// The sign of an exact secant.
pub proof fn lemma_sign(a: Double, b: Double, w: real)
    requires
        w > 0real,
    ensures
        ({
            let p = (b.amount() - a.amount()) / w;
            &&& (p < 0real) == (b.units() - a.units() < 0)
            &&& (p == 0real) == (b.units() - a.units() == 0)
        }),
{
    Double::amounts(a);
    Double::amounts(b);
    lemma_powers();
    let u = power(1074);
    let x = b.amount() - a.amount();
    let p = x / w;
    let n = (b.units() - a.units()) as real;
    lemma_spread(b.amount(), a.amount(), u);
    assert(x * u == n);
    assert(0real * u == 0real);
    if x >= 0real {
        lemma_grow(0real, x, u);
    }
    if x <= 0real {
        lemma_grow(x, 0real, u);
    }
    if n == 0real {
        lemma_cancel(x, 0real, u);
    }
    if n <= 0real {
        lemma_cancel_order(x, 0real, u);
    }
    lemma_divided(x, w);
    assert(0real * w == 0real);
    if p >= 0real {
        lemma_grow(0real, p, w);
    }
    if p <= 0real {
        lemma_grow(p, 0real, w);
    }
    if x == 0real {
        lemma_cancel(p, 0real, w);
    }
    if x <= 0real {
        lemma_cancel_order(p, 0real, w);
    }
}

pub proof fn lemma_divided(a: real, w: real)
    requires
        w > 0real,
    ensures
        (a / w) * w == a,
{
    assert((a / w) * w == a) by (nonlinear_arith)
        requires
            w > 0real,
    ;
}

pub proof fn lemma_cancel(a: real, b: real, w: real)
    requires
        a * w == b * w,
        w > 0real,
    ensures
        a == b,
{
    assert(a == b) by (nonlinear_arith)
        requires
            a * w == b * w,
            w > 0real,
    ;
}

pub proof fn lemma_cancel_order(a: real, b: real, w: real)
    requires
        a * w <= b * w,
        w > 0real,
    ensures
        a <= b,
{
    assert(a <= b) by (nonlinear_arith)
        requires
            a * w <= b * w,
            w > 0real,
    ;
}

pub proof fn lemma_scaled(w: real, m: real, p: real, h: real)
    requires
        w > 0real,
        p * w == h,
        size_of(m) <= 3real * size_of(p),
        p >= 0real ==> m >= 0real,
        p <= 0real ==> m <= 0real,
    ensures
        h >= 0real ==> 0real <= w * m <= 3real * h,
        h <= 0real ==> 3real * h <= w * m <= 0real,
{
    lemma_grow_both(size_of(m), 3real * size_of(p), w, w);
    assert((3real * size_of(p)) * w == 3real * (size_of(p) * w)) by (nonlinear_arith);
    crate::amount::lemma_size_product(p, w);
    crate::amount::lemma_size_product(m, w);
    lemma_spread(m, m, w);
    assert(0real * w == 0real);
    if h >= 0real {
        lemma_cancel_order(0real, p, w);
        lemma_grow(0real, m, w);
    }
    if h <= 0real {
        lemma_cancel_order(p, 0real, w);
        lemma_grow(m, 0real, w);
    }
}

/// Part of a span.
pub proof fn lemma_part_near(after: nat, width: nat)
    requires
        after <= width <= 86_400,
        1 <= width,
    ensures
        near(
            Double::of_nat(after).quotient(Double::of_nat(width)),
            after as real / (width as real),
            2real,
        ),
        0real <= after as real / (width as real) <= 1real,
{
    let x = after as real / (width as real);
    let a = after as real;
    let w = width as real;
    crate::smooth::lemma_count(after);
    crate::smooth::lemma_count(width);
    lemma_divided(a, w);
    assert(0real * w == 0real && 1real * w == w);
    lemma_cancel_order(0real, x, w);
    lemma_cancel_order(x, 1real, w);
    crate::smooth::lemma_broad_one();
    crate::smooth::lemma_broad(1real);
    Double::quotient_amount(Double::of_nat(after), Double::of_nat(width));
    lemma_grow(x, 1real, eps());
}

} // verus!
