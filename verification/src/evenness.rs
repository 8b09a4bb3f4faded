//! Cubics that neither turn back nor leap.
use crate::amount::{lemma_grow_both, lemma_spread};
use crate::smooth::{cubic, left_slope_weight, left_weight, right_slope_weight, right_weight};
use vstd::prelude::*;

verus! {

/// A quadratic between two parts of the way.
proof fn lemma_corners(x: real, y: real)
    requires
        0real <= x <= y <= 1real,
    ensures
        ({
            let d = y - x;
            let p = right_weight(y) - right_weight(x);
            let q = left_slope_weight(y) - left_slope_weight(x);
            let r = right_slope_weight(y) - right_slope_weight(x);
            &&& 0real <= p <= 3real * d
            &&& 0real <= p + 3real * q <= 3real * d
            &&& 0real <= p + 3real * r <= 3real * d
            &&& 0real <= p + 3real * q + 3real * r <= 3real * d
        }),
{
    let d = y - x;
    let x2 = x * x;
    let y2 = y * y;
    let xy = x * y;
    let p = right_weight(y) - right_weight(x);
    let q = left_slope_weight(y) - left_slope_weight(x);
    let r = right_slope_weight(y) - right_slope_weight(x);
    lemma_grow_both(x, 1real, x, x);
    lemma_grow_both(y, 1real, y, y);
    lemma_grow_both(x, 1real, y, y);
    lemma_grow_both(y, 1real, x, x);
    assert(x * y == y * x) by (nonlinear_arith);
    assert(1real * x == x && 1real * y == y);
    // x y <= x and x y <= y
    let g1 = 3real * (x + y) - 2real * (x2 + xy + y2);
    assert(p == d * g1) by (nonlinear_arith)
        requires
            p == (3real * (y * y) - 2real * ((y * y) * y)) - (3real * (x * x) - 2real * ((x * x)
                * x)),
            d == y - x,
            g1 == 3real * (x + y) - 2real * (x2 + xy + y2),
            x2 == x * x,
            y2 == y * y,
            xy == x * y,
    ;
    let s = x + y - 1real;
    let s2 = s * s;
    assert(s2 == x2 + 2real * xy + y2 - 2real * (x + y) + 1real) by (nonlinear_arith)
        requires
            s2 == s * s,
            s == x + y - 1real,
            x2 == x * x,
            y2 == y * y,
            xy == x * y,
    ;
    assert(s2 >= 0real) by (nonlinear_arith)
        requires
            s2 == s * s,
    ;
    assert(0real <= g1 <= 3real);
    lemma_between(d, g1);
    let g3 = x2 + xy + y2;
    assert(p + 3real * r == d * g3) by (nonlinear_arith)
        requires
            p == (3real * (y * y) - 2real * ((y * y) * y)) - (3real * (x * x) - 2real * ((x * x)
                * x)),
            r == ((y * y) * y - y * y) - ((x * x) * x - x * x),
            d == y - x,
            g3 == x2 + xy + y2,
            x2 == x * x,
            y2 == y * y,
            xy == x * y,
    ;
    lemma_between(d, g3);
    let g2 = 3real - 3real * (x + y) + x2 + xy + y2;
    assert(p + 3real * q == d * g2) by (nonlinear_arith)
        requires
            p == (3real * (y * y) - 2real * ((y * y) * y)) - (3real * (x * x) - 2real * ((x * x)
                * x)),
            q == ((y * y) * y - 2real * (y * y) + y) - ((x * x) * x - 2real * (x * x) + x),
            d == y - x,
            g2 == 3real - 3real * (x + y) + x2 + xy + y2,
            x2 == x * x,
            y2 == y * y,
            xy == x * y,
    ;
    let u = 1real - x;
    let v = 1real - y;
    lemma_grow_both(u, 1real, u, u);
    lemma_grow_both(v, 1real, v, v);
    lemma_grow_both(u, 1real, v, v);
    assert(1real * u == u && 1real * v == v);
    assert(g2 == u * u + u * v + v * v) by (nonlinear_arith)
        requires
            g2 == 3real - 3real * (x + y) + x2 + xy + y2,
            u == 1real - x,
            v == 1real - y,
            x2 == x * x,
            y2 == y * y,
            xy == x * y,
    ;
    lemma_between(d, g2);
    let g4 = 4real * (x2 + xy + y2) - 6real * (x + y) + 3real;
    assert(p + 3real * q + 3real * r == d * g4) by (nonlinear_arith)
        requires
            p == (3real * (y * y) - 2real * ((y * y) * y)) - (3real * (x * x) - 2real * ((x * x)
                * x)),
            q == ((y * y) * y - 2real * (y * y) + y) - ((x * x) * x - 2real * (x * x) + x),
            r == ((y * y) * y - y * y) - ((x * x) * x - x * x),
            d == y - x,
            g4 == 4real * (x2 + xy + y2) - 6real * (x + y) + 3real,
            x2 == x * x,
            y2 == y * y,
            xy == x * y,
    ;
    let t = x - y;
    let t2 = t * t;
    assert(t2 == x2 - 2real * xy + y2 && t2 >= 0real) by (nonlinear_arith)
        requires
            t2 == t * t,
            t == x - y,
            x2 == x * x,
            y2 == y * y,
            xy == x * y,
    ;
    // g4 == 3 (x + y - 1)^2 + (x - y)^2
    assert(g4 == 3real * s2 + t2);
    assert(g4 <= 3real);
    lemma_between(d, g4);
}

proof fn lemma_between(d: real, g: real)
    requires
        0real <= d,
        0real <= g <= 3real,
    ensures
        0real <= d * g <= 3real * d,
{
    lemma_grow_both(d, d, g, 3real);
    lemma_spread(d, d, 3real);
}

/// A cubic whose slopes are at most three times the secant neither turns back nor is it
/// steeper than three times the secant.
pub proof fn lemma_even(x: real, y: real, left: real, left_rise: real, right: real, right_rise: real)
    requires
        0real <= x <= y <= 1real,
        left <= right,
        0real <= left_rise <= 3real * (right - left),
        0real <= right_rise <= 3real * (right - left),
    ensures
        ({
            let step = cubic(y, left, left_rise, right, right_rise) - cubic(
                x,
                left,
                left_rise,
                right,
                right_rise,
            );
            0real <= step <= (3real * (right - left)) * (y - x)
        }),
{
    let d = y - x;
    let h = right - left;
    let p = right_weight(y) - right_weight(x);
    let q = left_slope_weight(y) - left_slope_weight(x);
    let r = right_slope_weight(y) - right_slope_weight(x);
    lemma_corners(x, y);
    let step = cubic(y, left, left_rise, right, right_rise) - cubic(
        x,
        left,
        left_rise,
        right,
        right_rise,
    );
    lemma_linear(y, left, right);
    lemma_linear(x, left, right);
    lemma_spread(right_weight(y), right_weight(x), h);
    lemma_spread(left_slope_weight(y), left_slope_weight(x), left_rise);
    lemma_spread(right_slope_weight(y), right_slope_weight(x), right_rise);
    assert(step == p * h + q * left_rise + r * right_rise);
    lemma_part(q, left_rise, h);
    lemma_part(r, right_rise, h);
    lemma_grow_both(p, 3real * d, h, h);
    lemma_grow_both(p + 3real * q, 3real * d, h, h);
    lemma_grow_both(p + 3real * r, 3real * d, h, h);
    lemma_grow_both(p + 3real * q + 3real * r, 3real * d, h, h);
    lemma_spread(p, 3real * q, h);
    lemma_spread(p, 3real * r, h);
    lemma_spread(p + 3real * q, 3real * r, h);
    assert((3real * h) * d == (3real * d) * h) by (nonlinear_arith);
}

/// The values' part of a cubic.
proof fn lemma_linear(x: real, left: real, right: real)
    ensures
        left_weight(x) * left + right_weight(x) * right == left + right_weight(x) * (right - left),
{
    let a = right_weight(x);
    assert(left_weight(x) == 1real - a);
    lemma_spread(1real, a, left);
    lemma_spread(right, left, a);
    assert(1real * left == left);
}

/// A weight times something between nothing and three times `h`.
proof fn lemma_part(q: real, part: real, h: real)
    requires
        0real <= part <= 3real * h,
    ensures
        q >= 0real ==> 0real <= q * part <= (3real * q) * h,
        q <= 0real ==> (3real * q) * h <= q * part <= 0real,
{
    if q >= 0real {
        lemma_grow_both(q, q, part, 3real * h);
        assert(q * (3real * h) == (3real * q) * h) by (nonlinear_arith);
    }
    if q <= 0real {
        lemma_grow_both(-q, -q, part, 3real * h);
        assert((-q) * (3real * h) == -((3real * q) * h)) by (nonlinear_arith);
        assert((-q) * part == -(q * part)) by (nonlinear_arith);
    }
}

/// Turned upside down, a cubic is the cubic of the values turned upside down.
proof fn lemma_mirrored(x: real, left: real, left_rise: real, right: real, right_rise: real)
    ensures
        cubic(x, -left, -left_rise, -right, -right_rise) == -cubic(
            x,
            left,
            left_rise,
            right,
            right_rise,
        ),
{
    lemma_minus(left_weight(x), left);
    lemma_minus(left_slope_weight(x), left_rise);
    lemma_minus(right_weight(x), right);
    lemma_minus(right_slope_weight(x), right_rise);
}

proof fn lemma_minus(a: real, b: real)
    ensures
        a * (-b) == -(a * b),
{
    assert(a * (-b) == -(a * b)) by (nonlinear_arith);
}

/// At both ends a cubic has the values given there.
pub proof fn lemma_at_ends(left: real, left_rise: real, right: real, right_rise: real)
    ensures
        cubic(0real, left, left_rise, right, right_rise) == left,
        cubic(1real, left, left_rise, right, right_rise) == right,
{
    assert(left_weight(0real) == 1real && right_weight(0real) == 0real && left_slope_weight(0real)
        == 0real && right_slope_weight(0real) == 0real) by {
        assert(0real * 0real == 0real);
        assert((0real * 0real) * 0real == 0real);
    }
    assert(left_weight(1real) == 0real && right_weight(1real) == 1real && left_slope_weight(1real)
        == 0real && right_slope_weight(1real) == 0real) by {
        assert(1real * 1real == 1real);
        assert((1real * 1real) * 1real == 1real);
    }
    assert(0real * left_rise == 0real && 0real * right_rise == 0real && 0real * left == 0real
        && 0real * right == 0real && 1real * left == left && 1real * right == right);
}

/// What holds of the rises of a segment, whichever way it goes.
pub open spec fn tame(left: real, left_rise: real, right: real, right_rise: real) -> bool {
    ||| left <= right && 0real <= left_rise <= 3real * (right - left) && 0real <= right_rise
        <= 3real * (right - left)
    ||| right <= left && 3real * (right - left) <= left_rise <= 0real && 3real * (right - left)
        <= right_rise <= 0real
}

/// A tame cubic moves one way, at most three times as steep as the secant.
pub proof fn lemma_tame(x: real, y: real, left: real, left_rise: real, right: real, right_rise: real)
    requires
        0real <= x <= y <= 1real,
        tame(left, left_rise, right, right_rise),
    ensures
        ({
            let step = cubic(y, left, left_rise, right, right_rise) - cubic(
                x,
                left,
                left_rise,
                right,
                right_rise,
            );
            &&& left <= right ==> 0real <= step <= (3real * (right - left)) * (y - x)
            &&& right <= left ==> (3real * (right - left)) * (y - x) <= step <= 0real
        }),
{
    if left <= right && 0real <= left_rise && 0real <= right_rise {
        lemma_even(x, y, left, left_rise, right, right_rise);
        if left == right {
            assert((3real * (right - left)) * (y - x) == 0real) by (nonlinear_arith)
                requires
                    left == right,
            ;
        }
    } else {
        lemma_even(x, y, -left, -left_rise, -right, -right_rise);
        lemma_mirrored(x, left, left_rise, right, right_rise);
        lemma_mirrored(y, left, left_rise, right, right_rise);
        let d = y - x;
        let h = right - left;
        assert((3real * (-right - (-left))) * d == -((3real * h) * d)) by (nonlinear_arith)
            requires
                h == right - left,
        ;
        if left == right {
            assert((3real * (right - left)) * (y - x) == 0real) by (nonlinear_arith)
                requires
                    left == right,
            ;
        }
    }
}

} // verus!
