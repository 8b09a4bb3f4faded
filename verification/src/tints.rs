//! When two points of the colour diagram count as one colour.
use crate::amount::{
    eps, lemma_grow, lemma_spread, near, near_difference, near_product, size_of,
};
use crate::color::ColorComparisonPolicy;
use crate::double::Double;
use crate::value::Color;
use vstd::prelude::*;

verus! {

/// One side of a step, measured in tolerances.
pub open spec fn paces(from: Double, to: Double, tolerance: Double) -> real {
    (from.amount() - to.amount()) / tolerance.amount()
}

proof fn lemma_within_unit(a: Double)
    requires
        a.finite(),
        (Double { bits: 0 }).at_most(a),
        a.at_most(Double { bits: crate::value::ONE }),
    ensures
        0real <= a.amount() <= 1real,
{
    crate::light::lemma_small();
    Double::amounts_keep_order(Double { bits: 0 }, a);
    Double::amounts_keep_order(a, Double { bits: crate::value::ONE });
}

/// A quotient of a number in a wide range is at most a thousand times it.
pub(crate) proof fn lemma_shrunk(a: real, t: real)
    requires
        1real / 1_000real <= t,
    ensures
        size_of(a / t) <= 1_000real * size_of(a),
{
    let q = a / t;
    crate::rates::lemma_divided(a, t);
    crate::amount::lemma_size_product(q, t);
    lemma_grow(1real / 1_000real, t, size_of(q));
    let s = size_of(q);
    assert(s * (1real / 1_000real) == s / 1_000real) by (nonlinear_arith);
}

proof fn lemma_split(a: real, b: real, t: real)
    requires
        t > 0real,
    ensures
        a / t - b / t == (a - b) / t,
{
    assert(a / t - b / t == (a - b) / t) by (nonlinear_arith)
        requires
            t > 0real,
    ;
}

/// One side of a step as it is computed.
proof fn lemma_side(from: Double, to: Double, tolerance: Double)
    requires
        from.finite(),
        to.finite(),
        0real <= from.amount() <= 1real,
        0real <= to.amount() <= 1real,
        tolerance.finite(),
        1real / 1_000real <= tolerance.amount(),
    ensures
        near(from.difference(to).quotient(tolerance), paces(from, to, tolerance), 3_010real),
        size_of(paces(from, to, tolerance)) <= 1_000real,
{
    let t = tolerance.amount();
    let x = from.amount() - to.amount();
    let e = eps();
    crate::light::lemma_small();
    near_difference(from, from.amount(), 0real, to, to.amount(), 0real, 1real);
    let d = from.difference(to);
    lemma_shrunk(x, t);
    lemma_shrunk(d.amount(), t);
    lemma_shrunk(d.amount() - x, t);
    lemma_split(d.amount(), x, t);
    Double::amounts(tolerance);
    assert(size_of(d.amount()) <= 1real + 2real * e);
    let s = size_of(d.amount() / t);
    assert(s <= 1_001real);
    Double::quotient_amount(d, tolerance);
    lemma_grow(s, 1_001real, e);
    lemma_spread(2_000real, 1_010real, e);
}

impl ColorComparisonPolicy {
    /// Two points of the diagram are one colour to a lamp that shows any colour if their
    /// distance is at most the tolerance, and only then.
    pub proof fn points_in_sync_are_close(self, desired: Color, observed: Color)
        requires
            self.valid(),
            self.gamut is None,
            1real / 1_000real <= self.xy_tolerance.amount(),
            desired.wf(),
            observed.wf(),
            desired is Xy,
            observed is Xy,
        ensures
            ({
                let across = paces(desired->x, observed->x, self.xy_tolerance);
                let up = paces(desired->y, observed->y, self.xy_tolerance);
                let square = across * across + up * up;
                &&& self.matching(desired, observed) ==> square <= 1real + 1real / 1_000_000real
                &&& square <= 1real - 1real / 1_000_000real ==> self.matching(desired, observed)
            }),
    {
        let (x1, y1) = (desired->x, desired->y);
        let (x2, y2) = (observed->x, observed->y);
        let t = self.xy_tolerance;
        lemma_within_unit(x1);
        lemma_within_unit(x2);
        lemma_within_unit(y1);
        lemma_within_unit(y2);
        lemma_side(x1, x2, t);
        lemma_side(y1, y2, t);
        let a = x1.difference(x2).quotient(t);
        let b = y1.difference(y2).quotient(t);
        let across = paces(x1, x2, t);
        let up = paces(y1, y2, t);
        let e = eps();
        near_product(a, across, 3_010real, a, across, 3_010real, 1_000real, 1_000real);
        near_product(b, up, 3_010real, b, up, 3_010real, 1_000real, 1_000real);
        let aa = a.product(a);
        let bb = b.product(b);
        crate::light::lemma_small();
        assert(7_020_001real * e <= 1real / 100_000_000real);
        crate::amount::lemma_size_product(across, across);
        crate::amount::lemma_size_product(up, up);
        crate::amount::lemma_grow_both(
            size_of(across),
            1_000real,
            size_of(across),
            1_000real,
        );
        crate::amount::lemma_grow_both(size_of(up), 1_000real, size_of(up), 1_000real);
        let z = aa.amount() + bb.amount();
        assert(size_of(z) <= 2_000_001real);
        Double::sum_amount(aa, bb);
        lemma_grow(size_of(z), 2_000_001real, e);
        Double::amounts_keep_order(aa.sum(bb), Double { bits: crate::value::ONE });
    }
}

} // verus!
