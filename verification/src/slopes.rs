//! How closely the computed slopes follow the exact ones.
use crate::amount::{eps, lemma_grow, lemma_grow_both, lemma_powers, lemma_spread, power, size_of, tiny};
use crate::double::Double;
use crate::smooth::faint;
use vstd::arithmetic::power2::*;
use vstd::prelude::*;

verus! {

/// The slope at a value with a secant on either side: none at an extremum, elsewhere the
/// harmonic mean of the secants, weighted by the widths.
pub open spec fn mean_slope(
    previous_width: real,
    next_width: real,
    previous: real,
    next: real,
) -> real {
    if (previous > 0real && next > 0real) || (previous < 0real && next < 0real) {
        (3real * previous_width + 3real * next_width) / ((2real * next_width + previous_width)
            / previous + (next_width + 2real * previous_width) / next)
    } else {
        0real
    }
}

/// `secant` stands for the exact secant `p`.
pub open spec fn follows(secant: Double, p: real) -> bool {
    &&& secant.finite()
    &&& size_of(secant.amount() - p) <= (3real * eps()) * size_of(p) + 3real * tiny()
    &&& secant.code() != 0 ==> p != 0real && secant.negative() == (p < 0real)
    &&& size_of(p) <= 2real * power(900)
}

pub open spec fn least() -> real {
    1real / power(950)
}

/// Sizes that the proofs go by.
proof fn lemma_sizes()
    ensures
        0real < eps() <= 1real / 9_000_000_000_000_000real,
        0real < tiny(),
        tiny() <= faint(),
        0real < least(),
        3real * tiny() <= eps() * least(),
        1_000_000real * least() <= faint() / 4real,
        least() * power(950) == 1real,
        4_000_000real * power(950) <= power(1000),
        (4_000_000real * tiny()) * power(900) <= eps(),
        16_000_000real * power(900) <= power(1000),
        16real * tiny() <= faint(),
{
    lemma_powers();
    crate::smooth::lemma_faint();
    lemma2_to64();
    lemma2_to64_rest();
    lemma_pow2_pos(900);
    lemma_pow2_pos(950);
    lemma_pow2_pos(1075);
    lemma_pow2_adds(900, 50);
    lemma_pow2_adds(950, 50);
    lemma_pow2_adds(900, 100);
    lemma_pow2_adds(50, 50);
    lemma_pow2_adds(53, 950);
    lemma_pow2_adds(1003, 72);
    lemma_pow2_adds(900, 175);
    lemma_pow2_adds(53, 122);
    lemma_pow2_adds(64, 58);
    lemma_pow2_adds(64, 8);
    let p9 = power(900);
    let k50 = power(50);
    let p95 = power(950);
    crate::amount::lemma_real_product(pow2(900) as int, pow2(50) as int);
    crate::amount::lemma_real_product(pow2(950) as int, pow2(50) as int);
    crate::amount::lemma_real_product(pow2(900) as int, pow2(100) as int);
    crate::amount::lemma_real_product(pow2(50) as int, pow2(50) as int);
    crate::amount::lemma_real_product(pow2(53) as int, pow2(950) as int);
    crate::amount::lemma_real_product(pow2(1003) as int, pow2(72) as int);
    crate::amount::lemma_real_product(pow2(900) as int, pow2(175) as int);
    crate::amount::lemma_real_product(pow2(53) as int, pow2(122) as int);
    crate::amount::lemma_real_product(pow2(64) as int, pow2(58) as int);
    crate::amount::lemma_real_product(pow2(64) as int, pow2(8) as int);
    assert(k50 == 1_125_899_906_842_624real);
    lemma_grow(4_000_000real, k50, p95);
    lemma_spread(p95, p95, k50);
    lemma_grow(16_000_000real, power(100), p9);
    lemma_spread(p9, p9, power(100));
    let l = least();
    let f = faint();
    let e = eps();
    let t = tiny();
    lemma_inverses(p95);
    lemma_inverses(p9);
    lemma_inverses(power(53));
    lemma_inverses(power(1075));
    // l * k50 == f
    assert(l * k50 == f) by (nonlinear_arith)
        requires
            l * p95 == 1real,
            f * p9 == 1real,
            p95 == p9 * k50,
            p9 > 0real,
            k50 > 0real,
    ;
    lemma_grow(4_000_000real, k50, l);
    lemma_spread(l, l, k50);
    // e * l == t * power(72)
    let q = power(72);
    assert(e * l == t * q) by (nonlinear_arith)
        requires
            e * power(53) == 1real,
            l * p95 == 1real,
            t * power(1075) == 1real,
            power(1003) == power(53) * p95,
            power(1075) == power(1003) * q,
            power(53) > 0real,
            p95 > 0real,
            q > 0real,
    ;
    lemma_grow(3real, q, t);
    lemma_spread(t, t, q);
    // t * p9 * power(122) == e
    let r = power(122);
    assert((t * p9) * r == e) by (nonlinear_arith)
        requires
            e * power(53) == 1real,
            t * power(1075) == 1real,
            power(1075) == p9 * power(175),
            power(175) == power(53) * r,
            power(53) > 0real,
            p9 > 0real,
            r > 0real,
    ;
    let tp = t * p9;
    lemma_grow_both(t, t, p9, p9);
    lemma_grow(4_000_000real, r, tp);
    lemma_spread(tp, tp, r);
    assert((4_000_000real * t) * p9 == 4_000_000real * tp) by (nonlinear_arith)
        requires
            tp == t * p9,
    ;
    lemma_grow(e, 1real, l);
    assert(1real * l == l);
}

proof fn lemma_inverses(x: real)
    requires
        x > 0real,
    ensures
        1real / x > 0real,
        (1real / x) * x == 1real,
{
    assert((1real / x) * x == 1real && 1real / x > 0real) by (nonlinear_arith)
        requires
            x > 0real,
    ;
}

/// `r` is off from `x` by at most `k` roundings.
pub open spec fn within(r: real, x: real, k: real) -> bool {
    size_of(r - x) <= (k * eps()) * size_of(x)
}

/// A quotient by a number that is a little off is a little off.
proof fn lemma_quotient_within(a: real, r: real, x: real, k: real)
    requires
        within(r, x, k),
        x != 0real,
        0real <= k <= 100real,
    ensures
        r != 0real,
        within(a / r, a / x, k + 1real),
        size_of(a / x) * size_of(x) == size_of(a),
        (x > 0real && r > 0real) || (x < 0real && r < 0real),
{
    lemma_sizes();
    let e = eps();
    let ke = k * e;
    lemma_grow_both(k, 100real, e, e);
    assert(ke <= 1real / 1_000_000real);
    let sx = size_of(x);
    let sr = size_of(r);
    lemma_grow(ke, 1real / 1_000_000real, sx);
    assert((1real / 1_000_000real) * sx == sx / 1_000_000real) by (nonlinear_arith);
    assert(sr >= sx - ke * sx);
    assert(r != 0real);
    let c = a / x;
    let d = a / r;
    assert(c * x == a) by (nonlinear_arith)
        requires
            c == a / x,
            x != 0real,
    ;
    assert(d * r == a) by (nonlinear_arith)
        requires
            d == a / r,
            r != 0real,
    ;
    let gap = d - c;
    assert(gap * r == c * (x - r)) by (nonlinear_arith)
        requires
            gap == d - c,
            d * r == a,
            c * x == a,
    ;
    crate::amount::lemma_size_product(gap, r);
    crate::amount::lemma_size_product(c, x - r);
    crate::amount::lemma_size_product(c, x);
    let sc = size_of(c);
    let sg = size_of(gap);
    assert(size_of(x - r) == size_of(r - x));
    lemma_grow(size_of(r - x), ke * sx, sc);
    lemma_spread(size_of(r - x), size_of(r - x), sc);
    assert(sg * sr <= sc * (ke * sx));
    lemma_grow(sx - ke * sx, sr, sg);
    lemma_spread(sx, ke * sx, sg);
    assert(sg * (sx - ke * sx) <= sc * (ke * sx));
    let kd = 1real - ke;
    assert(sg * kd <= sc * ke) by (nonlinear_arith)
        requires
            sg * (sx - ke * sx) <= sc * (ke * sx),
            kd == 1real - ke,
            sx > 0real,
    ;
    // (k + 1) e (1 - ke) >= ke
    let k1 = (k + 1real) * e;
    lemma_spread(k, 1real, e);
    assert(k1 == ke + e);
    lemma_grow(k1, 101real * e, ke);
    assert((101real * e) * ke <= e) by {
        lemma_grow(ke, 1real / 1_000_000real, 101real * e);
    }
    lemma_spread(1real, ke, k1);
    assert(k1 * kd == k1 - k1 * ke);
    assert(k1 * kd >= ke);
    lemma_grow(ke, k1 * kd, sc);
    lemma_spread(ke, ke, sc);
    assert(sg * kd <= (sc * k1) * kd) by (nonlinear_arith)
        requires
            sg * kd <= sc * ke,
            ke * sc <= (k1 * kd) * sc,
    ;
    assert(sg <= sc * k1) by (nonlinear_arith)
        requires
            sg * kd <= (sc * k1) * kd,
            kd > 0real,
    ;
    lemma_spread(sc, sc, k1);
}

/// The computed share of a weight over a secant.
#[verifier::spinoff_prover]
proof fn lemma_share(count: nat, secant: Double, p: real)
    requires
        0 < count <= 300_000,
        follows(secant, p),
        size_of(p) >= least(),
    ensures
        ({
            let share = Double::of_nat(count).quotient(secant);
            let exact = count as real / p;
            &&& share.finite()
            &&& within(share.amount(), exact, 9real)
            &&& size_of(exact) <= 300_000real * power(950)
            &&& 2_000_000real * tiny() <= eps() * size_of(exact)
            &&& p > 0real ==> exact > 0real
            &&& p < 0real ==> exact < 0real
        }),
{
    lemma_sizes();
    let e = eps();
    let a = count as real;
    let weight = Double::of_nat(count);
    let s = secant.amount();
    let sp = size_of(p);
    crate::smooth::lemma_count(count);
    lemma_grow(least(), sp, e);
    lemma_spread(sp, sp, e);
    lemma_spread(3real * e, e, sp);
    assert(within(s, p, 4real));
    lemma_quotient_within(a, s, p, 4real);
    let exact = a / p;
    let sq = size_of(exact);
    // sq * sp == a
    assert(sq <= 300_000real * power(950)) by {
        let l = least();
        lemma_grow(l, sp, sq);
        lemma_spread(l, sp, sq);
        lemma_grow(sq * l, a, power(950));
        assert((sq * l) * power(950) == sq) by (nonlinear_arith)
            requires
                l * power(950) == 1real,
        ;
        lemma_grow(a, 300_000real, power(950));
    }
    assert(2_000_000real * tiny() <= e * sq) by {
        let t = 4_000_000real * tiny();
        let p9 = power(900);
        lemma_grow(sp, 2real * p9, sq);
        lemma_spread(sp, sp, sq);
        // a <= 2 * p9 * sq
        assert(1real <= sq * (2real * p9));
        lemma_grow(1real, sq * (2real * p9), t);
        assert((sq * (2real * p9)) * t == (2real * sq) * (t * p9)) by (nonlinear_arith);
        lemma_grow(t * p9, e, 2real * sq);
        assert((2real * sq) * e == 2real * (e * sq)) by (nonlinear_arith);
    }
    assert(p > 0real ==> exact > 0real) by (nonlinear_arith)
        requires
            exact == a / p,
            a > 0real,
    ;
    assert(p < 0real ==> exact < 0real) by (nonlinear_arith)
        requires
            exact == a / p,
            a > 0real,
    ;
    Double::amounts(secant);
    let q = a / s;
    let k5 = (5real * e) * sq;
    lemma_grow(5real * e, 1real, sq);
    assert(size_of(q) <= 2real * sq);
    assert(2real * (300_000real * power(950)) <= power(1000));
    Double::quotient_amount(weight, secant);
    lemma_grow(size_of(q), 2real * sq, e);
    assert((2real * sq) * e == 2real * (e * sq)) by (nonlinear_arith);
    let es = e * sq;
    assert(k5 == 5real * es) by (nonlinear_arith)
        requires
            k5 == (5real * e) * sq,
            es == e * sq,
    ;
    assert((9real * e) * sq == 9real * es) by (nonlinear_arith)
        requires
            es == e * sq,
    ;
}

/// The mean of two secants that are large enough.
#[verifier::spinoff_prover]
proof fn lemma_mean(a: nat, b: nat, previous: Double, next: Double, p: real, n: real)
    requires
        0 < a <= 300_000,
        0 < b <= 300_000,
        a <= 2 * b,
        b <= 2 * a,
        follows(previous, p),
        follows(next, n),
        size_of(p) >= least(),
        size_of(n) >= least(),
        (p > 0real && n > 0real) || (p < 0real && n < 0real),
    ensures
        ({
            let shares = Double::of_nat(a).quotient(previous).sum(Double::of_nat(b).quotient(next));
            let slope = Double::of_nat(a + b).quotient(shares);
            let ideal = (a + b) as real / (a as real / p + b as real / n);
            &&& slope.finite()
            &&& size_of(slope.amount() - ideal) <= (30real * eps()) * size_of(ideal) + faint()
        }),
{
    lemma_sizes();
    let e = eps();
    let before = Double::of_nat(a).quotient(previous);
    let after = Double::of_nat(b).quotient(next);
    let shares = before.sum(after);
    let total = Double::of_nat(a + b);
    let x = a as real / p;
    let y = b as real / n;
    let z = x + y;
    lemma_share(a, previous, p);
    lemma_share(b, next, n);
    let sx = size_of(x);
    let sy = size_of(y);
    let sz = size_of(z);
    assert(sz == sx + sy);
    lemma_spread(sx, sy, 9real * e);
    let sum = before.amount() + after.amount();
    assert(size_of(sum - z) <= (9real * e) * sz);
    lemma_grow(9real * e, 1real, sz);
    assert(size_of(sum) <= 2real * sz);
    Double::sum_amount(before, after);
    lemma_grow(size_of(sum), 2real * sz, e);
    let ez = e * sz;
    assert((2real * sz) * e == 2real * ez && (9real * e) * sz == 9real * ez && (12real * e) * sz
        == 12real * ez) by (nonlinear_arith)
        requires
            ez == e * sz,
    ;
    lemma_spread(sx, sy, e);
    assert(tiny() <= ez);
    assert(within(shares.amount(), z, 12real));
    let t = (a + b) as real;
    lemma_quotient_within(t, shares.amount(), z, 12real);
    crate::smooth::lemma_count(a + b);
    Double::amounts(shares);
    let ideal = t / z;
    let si = size_of(ideal);
    let q = t / shares.amount();
    // |ideal| * sz == t, so |ideal| * sx <= t and |ideal| <= 3 |p|
    lemma_ideal_size(a, b, p, n);
    lemma_grow(13real * e, 1real, si);
    assert(size_of(q) <= 2real * si);
    Double::quotient_amount(total, shares);
    lemma_grow(size_of(q), 2real * si, e);
    let ei = e * si;
    assert((2real * si) * e == 2real * ei && (13real * e) * si == 13real * ei && (30real * e) * si
        == 30real * ei) by (nonlinear_arith)
        requires
            ei == e * si,
    ;
    lemma_grow_both(e, e, si, si);
}

/// The mean is at most three times either secant, and has their sign.
pub proof fn lemma_ideal_size(a: nat, b: nat, p: real, n: real)
    requires
        0 < a,
        0 < b,
        a <= 2 * b,
        b <= 2 * a,
        (p > 0real && n > 0real) || (p < 0real && n < 0real),
    ensures
        ({
            let ideal = (a + b) as real / (a as real / p + b as real / n);
            &&& size_of(ideal) <= 3real * size_of(p)
            &&& size_of(ideal) <= 3real * size_of(n)
            &&& p > 0real ==> ideal >= 0real
            &&& p < 0real ==> ideal <= 0real
        }),
{
    let x = a as real / p;
    let y = b as real / n;
    let z = x + y;
    let t = (a + b) as real;
    let ra = a as real;
    let rb = b as real;
    assert(t == ra + rb);
    assert(x * p == ra && (p > 0real ==> x > 0real) && (p < 0real ==> x < 0real))
        by (nonlinear_arith)
        requires
            x == ra / p,
            p != 0real,
            ra > 0real,
    ;
    assert(y * n == rb && (n > 0real ==> y > 0real) && (n < 0real ==> y < 0real))
        by (nonlinear_arith)
        requires
            y == rb / n,
            n != 0real,
            rb > 0real,
    ;
    let i = t / z;
    assert(i * z == t && (z > 0real ==> i > 0real) && (z < 0real ==> i < 0real))
        by (nonlinear_arith)
        requires
            i == t / z,
            z != 0real,
            t > 0real,
    ;
    crate::amount::lemma_size_product(i, z);
    crate::amount::lemma_size_product(x, p);
    crate::amount::lemma_size_product(y, n);
    let si = size_of(i);
    lemma_third(si, size_of(x), size_of(y), size_of(p), ra, rb);
    lemma_third(si, size_of(y), size_of(x), size_of(n), rb, ra);
}

proof fn lemma_third(si: real, sx: real, sy: real, sp: real, a: real, b: real)
    requires
        0real < sx,
        0real < sy,
        0real <= si,
        0real < sp,
        si * (sx + sy) == a + b,
        sx * sp == a,
        b <= 2real * a,
        0real < a,
    ensures
        si <= 3real * sp,
{
    lemma_spread(sx, sy, si);
    lemma_grow_both(si, si, sy, sy);
    // si * sx <= 3 a == 3 sx sp
    assert(si * sx <= (3real * sp) * sx) by (nonlinear_arith)
        requires
            si * sx <= 3real * a,
            sx * sp == a,
    ;
    assert(si <= 3real * sp) by (nonlinear_arith)
        requires
            si * sx <= (3real * sp) * sx,
            sx > 0real,
    ;
}

/// A secant too small to matter, one of the two.
#[verifier::spinoff_prover]
proof fn lemma_faint_mean(a: nat, b: nat, small: Double, other: Double, p: real)
    requires
        0 < a <= 300_000,
        0 < b <= 300_000,
        follows(small, p),
        size_of(p) < least(),
        small.code() != 0,
        other.finite(),
        other.code() != 0,
        small.negative() == other.negative(),
    ensures
        ({
            let share = Double::of_nat(a).quotient(small);
            let rest = Double::of_nat(b).quotient(other);
            let slope = Double::of_nat(a + b).quotient(share.sum(rest));
            let turned = Double::of_nat(a + b).quotient(rest.sum(share));
            &&& slope == turned
            &&& slope.finite()
            &&& size_of(slope.amount()) <= faint() / 4real
        }),
{
    lemma_sizes();
    lemma_powers();
    let e = eps();
    let u = crate::bounds::unit();
    let share = Double::of_nat(a).quotient(small);
    let rest = Double::of_nat(b).quotient(other);
    let shares = share.sum(rest);
    let slope = Double::of_nat(a + b).quotient(shares);
    // The size of the secant in units.
    let sp = size_of(p);
    lemma_grow_both(3real * e, 1real, sp, sp);
    assert(size_of(small.amount()) <= 4real * least());
    Double::amounts(small);
    Double::sizes(small);
    Double::sizes(other);
    let ru = power(1074);
    let v = small.size() as real;
    assert(v <= (4real * least()) * ru) by (nonlinear_arith)
        requires
            v / ru <= 4real * least(),
            ru > 0real,
    ;
    lemma_pow2_adds(950, 124);
    crate::amount::lemma_real_product(pow2(950) as int, pow2(124) as int);
    let l = least();
    assert((4real * l) * ru == 4real * power(124)) by (nonlinear_arith)
        requires
            l * power(950) == 1real,
            ru == power(950) * power(124),
    ;
    lemma_pow2_adds(124, 2);
    lemma2_to64();
    assert(small.size() <= pow2(126));
    // The share is large.
    lemma_pow2_adds(126, 2000);
    lemma_pow2_adds(1074, 1074);
    lemma_pow2_strictly_increases(2126, 2148);
    Double::counts_are_exact(a);
    Double::counts_are_exact(b);
    Double::counts_are_exact(a + b);
    let s = small.size();
    let big = pow2(2000) as int;
    lemma_pow2_pos(2000);
    assert(1 * pow2(2000) == big);
    assert(s * big <= pow2(126) * big) by (nonlinear_arith)
        requires
            s <= pow2(126),
            big > 0,
    ;
    assert(u * u <= (a * u) * u) by (nonlinear_arith)
        requires
            a >= 1,
            u > 0,
    ;
    lemma_pow2_pos(1074);
    lemma_pow2_strictly_increases(2000, 2098);
    Double::quotients_above(Double::of_nat(a), small, 1, 2000);
    Double::quotient_parts(Double::of_nat(b), other);
    Double::sizes(rest);
    Double::sums_above(share, rest, 1, 2000);
    crate::cubic::lemma_swapped(share, rest);
    let t = shares.size();
    Double::sizes(shares);
    Double::sizes(slope);
    if shares.finite() {
        lemma_pow2_adds(2000, 168);
        lemma_pow2_adds(2148, 20);
        let c = (a + b) as int;
        assert((c * u) * u <= pow2(20) * (u * u)) by (nonlinear_arith)
            requires
                c <= pow2(20),
                u > 0,
                c > 0,
        ;
        let w = pow2(168) as int;
        lemma_pow2_pos(168);
        assert(big * w <= t * (1 * w)) by (nonlinear_arith)
            requires
                big <= t,
                w > 0,
        ;
        lemma_pow2_strictly_increases(168, 2098);
        Double::quotients_below(Double::of_nat(a + b), shares, 1, 168);
    } else {
        assert(crate::double::code_units(0) == 0);
        lemma_pow2_pos(168);
    }
    assert(slope.size() <= pow2(168));
    Double::amounts(slope);
    lemma_pow2_adds(168, 906);
    lemma_pow2_adds(900, 6);
    crate::amount::lemma_real_product(pow2(168) as int, pow2(906) as int);
    crate::amount::lemma_real_product(pow2(900) as int, pow2(6) as int);
    let f = faint();
    let p9 = power(900);
    lemma_pow2_pos(900);
    lemma_inverses(p9);
    let y = slope.size() as real;
    let big_w = power(168);
    assert(ru == big_w * (p9 * 64real));
    assert(y / ru <= f / 4real) by (nonlinear_arith)
        requires
            0real <= y <= big_w,
            ru == big_w * (p9 * 64real),
            f * p9 == 1real,
            p9 > 0real,
            big_w > 0real,
            f > 0real,
    ;
}

/// The computed slope follows the exact one.
#[verifier::spinoff_prover]
#[verifier::rlimit(40)]
pub proof fn close_mean(
    previous_width: nat,
    next_width: nat,
    previous: Double,
    next: Double,
    p: real,
    n: real,
)
    requires
        1 <= previous_width <= 86_400,
        1 <= next_width <= 86_400,
        follows(previous, p),
        follows(next, n),
    ensures
        ({
            let slope = crate::curve::monotone(
                Double::of_nat(previous_width),
                Double::of_nat(next_width),
                previous,
                next,
            );
            let ideal = mean_slope(previous_width as real, next_width as real, p, n);
            &&& slope.finite()
            &&& size_of(slope.amount() - ideal) <= (30real * eps()) * size_of(ideal) + faint()
            &&& size_of(ideal) <= 3real * size_of(p)
            &&& size_of(ideal) <= 3real * size_of(n)
            &&& p >= 0real ==> ideal >= 0real
            &&& p <= 0real ==> ideal <= 0real
            &&& n >= 0real ==> ideal >= 0real
            &&& n <= 0real ==> ideal <= 0real
        }),
{
    let zero = Double { bits: 0 };
    let a = 2 * next_width + previous_width;
    let b = next_width + 2 * previous_width;
    let ideal = mean_slope(previous_width as real, next_width as real, p, n);
    let e = eps();
    lemma_sizes();
    Double::amounts(zero);
    Double::amounts(previous);
    Double::amounts(next);
    let same = (p > 0real && n > 0real) || (p < 0real && n < 0real);
    if same {
        assert((a + b) as real == 3real * previous_width as real + 3real * next_width as real);
        assert(a as real == 2real * next_width as real + previous_width as real);
        assert(b as real == next_width as real + 2real * previous_width as real);
        lemma_ideal_size(a, b, p, n);
    }
    lemma_grow_both(30real * e, 30real * e, size_of(ideal), size_of(ideal));
    if previous.code() == 0 || next.code() == 0 || previous.negative() != next.negative() {
        if same && previous.code() == 0 {
            lemma_gone(p);
        } else if same && next.code() == 0 {
            lemma_gone(n);
        }
    } else {
        Double::counts_add(next_width, 0);
        Double::counts_add(previous_width, 0);
        Double::counts_add(2 * next_width, previous_width);
        Double::counts_add(next_width, 2 * previous_width);
        Double::counts_add(a, b);
        if size_of(p) < least() {
            lemma_faint_mean(a, b, previous, next, p);
        } else if size_of(n) < least() {
            assert(a + b == b + a);
            lemma_faint_mean(b, a, next, previous, n);
        } else {
            lemma_mean(a, b, previous, next, p, n);
        }
    }
}

/// A secant that is computed as zero is next to nothing.
proof fn lemma_gone(p: real)
    requires
        size_of(0real - p) <= (3real * eps()) * size_of(p) + 3real * tiny(),
    ensures
        3real * size_of(p) <= faint(),
{
    lemma_sizes();
    lemma_grow(3real * eps(), 1real / 1_000real, size_of(p));
    let s = size_of(p);
    assert((1real / 1_000real) * s == s / 1_000real) by (nonlinear_arith);
}

} // verus!
