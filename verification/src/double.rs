//! IEEE 754 binary64 numbers, kept as their bit patterns.
//!
//! Every finite number is an integer multiple of 2^-1074, so its exact value is
//! an `int` counted in that unit. Arithmetic is stated over those integers and
//! rounds to nearest, ties to even, as the hardware does.
use vstd::arithmetic::power2::*;
use vstd::calc;
use vstd::prelude::*;

verus! {

/// Weight of the sign bit.
pub const SIGN: u64 = 0x8000_0000_0000_0000;

/// Magnitude code of infinity; larger codes are NaN.
pub const INFINITE: u64 = 0x7ff0_0000_0000_0000;

/// Number of significands per binade: 2^52.
pub const HIDDEN: u64 = 0x0010_0000_0000_0000;

/// Bits of the NaN that arithmetic returns.
pub const QUIET_NAN: u64 = 0x7ff8_0000_0000_0000;

/// A binary64 number, by its bits.
#[derive(Clone, Copy, Debug)]
pub struct Double {
    pub bits: u64,
}

/// Exact value of the magnitude `code`, in units of 2^-1074. The code of
/// infinity stands for the first power of two that is out of range.
pub open spec fn code_units(code: int) -> int {
    let exponent = code / HIDDEN as int;
    let fraction = code % HIDDEN as int;
    if exponent <= 0 {
        fraction
    } else {
        (HIDDEN + fraction) * pow2((exponent - 1) as nat)
    }
}

/// `code` is the magnitude nearest to `n / d` units, ties going to the even
/// code: `n / d` lies between the midpoints to its two neighbours.
pub open spec fn is_nearest(n: int, d: int, code: int) -> bool {
    &&& 0 <= code <= INFINITE
    &&& code > 0 ==> {
        let low = d * (code_units(code - 1) + code_units(code));
        2 * n > low || (2 * n == low && code % 2 == 0)
    }
    &&& code < INFINITE ==> {
        let high = d * (code_units(code) + code_units(code + 1));
        2 * n < high || (2 * n == high && code % 2 == 0)
    }
}

/// The magnitude code that `n / d` units round to.
pub open spec fn nearest(n: int, d: int) -> int {
    choose|code: int| is_nearest(n, d, code)
}

proof fn lemma_code_step(code: int)
    requires
        code >= 0,
    ensures
        code_units(code) < code_units(code + 1),
        code_units(code) >= 0,
{
    let exponent = code / HIDDEN as int;
    let fraction = code % HIDDEN as int;
    if fraction + 1 < HIDDEN {
        assert((code + 1) / HIDDEN as int == exponent && (code + 1) % HIDDEN as int == fraction + 1);
    } else {
        assert((code + 1) / HIDDEN as int == exponent + 1 && (code + 1) % HIDDEN as int == 0);
    }
    if exponent > 0 {
        lemma_pow2_pos((exponent - 1) as nat);
        lemma_pow2_unfold(exponent as nat);
        let p = pow2((exponent - 1) as nat) as int;
        assert((HIDDEN + fraction) * p < (HIDDEN + fraction + 1) * p) by (nonlinear_arith)
            requires
                p > 0,
        ;
        assert(HIDDEN * (2 * p) == (HIDDEN + HIDDEN) * p) by (nonlinear_arith);
        assert((HIDDEN + fraction) * p >= 0) by (nonlinear_arith)
            requires
                p > 0,
                fraction >= 0,
        ;
    } else {
        assert(pow2(0) == 1) by {
            lemma2_to64();
        }
    }
}

pub(crate) proof fn lemma_code_order(a: int, b: int)
    requires
        0 <= a <= b,
    ensures
        code_units(a) <= code_units(b),
        a < b ==> code_units(a) < code_units(b),
        code_units(a) >= 0,
    decreases b - a,
{
    lemma_code_step(a);
    if a < b {
        lemma_code_order(a + 1, b);
    }
}

/// The code with significand `q` and exponent `k`.
pub(crate) proof fn lemma_code_of(q: int, k: int)
    requires
        0 <= k,
        0 <= q < 2 * HIDDEN,
        k == 0 || q >= HIDDEN,
    ensures
        code_units(k * HIDDEN + q) == q * pow2(k as nat),
        code_units(k * HIDDEN + q + 1) == (q + 1) * pow2(k as nat),
{
    let code = k * HIDDEN + q;
    let h = HIDDEN as int;
    lemma2_to64();
    if q < HIDDEN {
        assert(code / h == 0 && code % h == q);
    } else {
        assert(code == (k + 1) * h + (q - h)) by (nonlinear_arith)
            requires
                code == k * h + q,
        ;
        assert(code / h == k + 1 && code % h == q - h) by (nonlinear_arith)
            requires
                code == (k + 1) * h + (q - h),
                0 <= q - h < h,
        ;
    }
    let p = pow2(k as nat) as int;
    if q < HIDDEN {
        assert(q * p == q) by (nonlinear_arith)
            requires
                p == 1,
        ;
    } else {
        assert(h + (q - h) == q);
    }
    assert(code_units(code) == q * p);
    let next = code + 1;
    if q + 1 < HIDDEN {
        assert(next / h == 0 && next % h == q + 1);
    } else if q + 1 < 2 * HIDDEN {
        assert(next == (k + 1) * h + (q + 1 - h)) by (nonlinear_arith)
            requires
                next == k * h + q + 1,
        ;
        assert(next / h == k + 1 && next % h == q + 1 - h) by (nonlinear_arith)
            requires
                next == (k + 1) * h + (q + 1 - h),
                0 <= q + 1 - h < h,
        ;
    } else {
        assert(next == (k + 2) * h) by (nonlinear_arith)
            requires
                next == k * h + q + 1,
                q + 1 == 2 * h,
        ;
        assert(next / h == k + 2 && next % h == 0) by (nonlinear_arith)
            requires
                next == (k + 2) * h,
                h > 0,
        ;
        lemma_pow2_unfold((k + 1) as nat);
        assert(h * (2 * p) == (q + 1) * p) by (nonlinear_arith)
            requires
                q + 1 == 2 * h,
        ;
    }
}

/// At most one code is nearest.
proof fn lemma_nearest_unique(n: int, d: int, a: int, b: int)
    requires
        d > 0,
        is_nearest(n, d, a),
        is_nearest(n, d, b),
    ensures
        a == b,
    decreases if b < a { 1int } else { 0int },
{
    if a < b {
        lemma_code_order(a, b - 1);
        lemma_code_order(a + 1, b);
        let high = code_units(a) + code_units(a + 1);
        let low = code_units(b - 1) + code_units(b);
        assert(d * high <= d * low) by (nonlinear_arith)
            requires
                d > 0,
                high <= low,
        ;
        if a < b - 1 {
            assert(d * high < d * low) by (nonlinear_arith)
                requires
                    d > 0,
                    high < low,
            ;
        }
    } else if b < a {
        lemma_nearest_unique(n, d, b, a);
    }
}

pub(crate) proof fn lemma_nearest_is(n: int, d: int, code: int)
    requires
        d > 0,
        is_nearest(n, d, code),
    ensures
        nearest(n, d) == code,
{
    lemma_nearest_unique(n, d, nearest(n, d), code);
}

/// A number equal to the value of a code rounds to that code.
pub(crate) proof fn lemma_nearest_exact(n: int, d: int, code: int)
    requires
        d > 0,
        0 <= code <= INFINITE,
        n == d * code_units(code),
    ensures
        is_nearest(n, d, code),
{
    let v = code_units(code);
    if code > 0 {
        lemma_code_step(code - 1);
        let w = code_units(code - 1);
        assert(2 * (d * v) > d * (w + v)) by (nonlinear_arith)
            requires
                d > 0,
                w < v,
        ;
    }
    lemma_code_step(code);
    let w = code_units(code + 1);
    assert(2 * (d * v) < d * (v + w)) by (nonlinear_arith)
        requires
            d > 0,
            v < w,
    ;
}

/// A number between two adjacent codes rounds to the nearer one.
proof fn lemma_nearest_between(n: int, d: int, floor: int, up: bool)
    requires
        d > 0,
        0 <= floor < INFINITE,
        d * code_units(floor) <= n < d * code_units(floor + 1),
        ({
            let mid = d * (code_units(floor) + code_units(floor + 1));
            up == (2 * n > mid || (2 * n == mid && floor % 2 == 1))
        }),
    ensures
        is_nearest(n, d, if up { floor + 1 } else { floor }),
{
    let v = code_units(floor);
    let w = code_units(floor + 1);
    lemma_code_step(floor);
    if up {
        lemma_code_step(floor + 1);
        let x = code_units(floor + 2);
        assert(2 * n < d * (w + x)) by (nonlinear_arith)
            requires
                d > 0,
                n < d * w,
                w < x,
        ;
    } else if floor > 0 {
        lemma_code_step(floor - 1);
        let u = code_units(floor - 1);
        assert(2 * n > d * (u + v)) by (nonlinear_arith)
            requires
                d > 0,
                n >= d * v,
                u < v,
        ;
    }
}

/// Number of binary digits of `m`.
fn bit_length(m: u128) -> (length: u32)
    requires
        m > 0,
    ensures
        1 <= length <= 128,
        pow2((length - 1) as nat) <= m < pow2(length as nat),
{
    let mut rest: u128 = m;
    let mut length: u32 = 1;
    proof {
        lemma2_to64();
        assert(pow2(128) == 0x1_0000_0000_0000_0000_0000_0000_0000_0000) by {
            lemma_pow2_adds(64, 64);
        }
        let one = pow2(0) as int;
        assert(rest * one <= m < (rest + 1) * one) by (nonlinear_arith)
            requires
                one == 1,
                rest == m,
        ;
    }
    while rest > 1
        invariant
            1 <= length <= 128,
            rest >= 1,
            rest * pow2((length - 1) as nat) <= m < (rest + 1) * pow2((length - 1) as nat),
            pow2(128) == 0x1_0000_0000_0000_0000_0000_0000_0000_0000,
        decreases rest,
    {
        let ghost p = pow2((length - 1) as nat) as int;
        let ghost before = rest as int;
        rest = rest / 2;
        proof {
            lemma_pow2_unfold(length as nat);
            lemma_pow2_pos((length - 1) as nat);
            assert(rest * (2 * p) <= m < (rest + 1) * (2 * p)) by (nonlinear_arith)
                requires
                    before * p <= m < (before + 1) * p,
                    2 * rest <= before < 2 * (rest + 1),
                    p > 0,
            ;
            if length == 128 {
                assert(m >= 2 * p) by (nonlinear_arith)
                    requires
                        m >= before * p,
                        before >= 2,
                        p > 0,
                ;
                assert(false);
            }
        }
        length = length + 1;
    }
    proof {
        lemma_pow2_unfold(length as nat);
    }
    length
}

/// The power of two with exponent `e`.
fn power(e: u32) -> (p: u128)
    requires
        e < 128,
    ensures
        p == pow2(e as nat),
        p > 0,
{
    let mut p: u128 = 1;
    let mut i: u32 = 0;
    proof {
        lemma2_to64();
    }
    while i < e
        invariant
            i <= e < 128,
            p == pow2(i as nat),
        decreases e - i,
    {
        proof {
            lemma_pow2_unfold((i + 1) as nat);
            assert(pow2((i + 1) as nat) <= pow2(127)) by {
                if i + 1 < 127 {
                    lemma_pow2_strictly_increases((i + 1) as nat, 127);
                }
            }
            assert(pow2(127) == 0x8000_0000_0000_0000_0000_0000_0000_0000) by {
                lemma2_to64();
                lemma2_to64_rest();
                lemma_pow2_adds(64, 63);
            }
        }
        p = p * 2;
        i = i + 1;
    }
    proof {
        lemma_pow2_pos(e as nat);
    }
    p
}

/// `n / d` units are `m * 2^e` exactly, or lie strictly between `m * 2^e` and
/// `(m + 1) * 2^e`.
pub closed spec fn scaled(n: int, d: int, m: int, e: int, inexact: bool) -> bool {
    let p = pow2((if e >= 0 { e } else { 0 }) as nat);
    let q = pow2((if e >= 0 { 0 } else { -e }) as nat);
    if inexact {
        (d * p) * m < n * q < (d * p) * (m + 1)
    } else {
        n * q == (d * p) * m
    }
}

/// The split of `m` at bit `shift` carries over from `n * q` to `n`.
proof fn lemma_split(n: int, d: int, p: int, q: int, w: int, s: int, m: int, high: int, rest: int, inexact: bool, half: int)
    requires
        d > 0,
        p > 0,
        q > 0,
        s > 0,
        w > 0,
        s * q == w * p,
        m == high * w + rest,
        0 <= rest < w,
        w == 2 * half,
        if inexact {
            (d * p) * m < n * q < (d * p) * (m + 1)
        } else {
            n * q == (d * p) * m
        },
    ensures
        d * (high * s) <= n < d * ((high + 1) * s),
        ({
            let mid = d * (high * s + (high + 1) * s);
            &&& (2 * n > mid) == (rest > half || (rest == half && inexact))
            &&& (2 * n == mid) == (rest == half && !inexact)
        }),
{
    let u = d * p;
    assert(u > 0) by (nonlinear_arith)
        requires
            u == d * p,
            d > 0,
            p > 0,
    ;
    // d * s * q == u * w
    assert((d * s) * q == u * w) by (nonlinear_arith)
        requires
            s * q == w * p,
            u == d * p,
    ;
    let nq = n * q;
    let base = u * (high * w);
    assert(u * m == base + u * rest) by (nonlinear_arith)
        requires
            m == high * w + rest,
            base == u * (high * w),
    ;
    assert(u * (m + 1) == base + u * (rest + 1)) by (nonlinear_arith)
        requires
            m == high * w + rest,
            base == u * (high * w),
    ;
    assert((d * (high * s)) * q == base) by (nonlinear_arith)
        requires
            (d * s) * q == u * w,
            base == u * (high * w),
    ;
    assert((d * ((high + 1) * s)) * q == base + u * w) by (nonlinear_arith)
        requires
            (d * s) * q == u * w,
            base == u * (high * w),
    ;
    let low_end = high * s;
    let high_end = (high + 1) * s;
    assert((d * (low_end + high_end)) * q == (d * low_end) * q + (d * high_end) * q)
        by (nonlinear_arith);
    assert(0 <= u * rest) by (nonlinear_arith)
        requires
            u > 0,
            rest >= 0,
    ;
    assert(u * (rest + 1) <= u * w) by (nonlinear_arith)
        requires
            u > 0,
            rest + 1 <= w,
    ;
    assert(u * (rest + 1) == u * rest + u) by (nonlinear_arith);
    assert(u * w == 2 * (u * half)) by (nonlinear_arith)
        requires
            w == 2 * half,
    ;
    if rest > half {
        assert(u * rest >= u * half + u) by (nonlinear_arith)
            requires
                u > 0,
                rest >= half + 1,
        ;
    } else if rest < half {
        assert(u * rest + u <= u * half) by (nonlinear_arith)
            requires
                u > 0,
                rest + 1 <= half,
        ;
    }
    let a = d * (high * s);
    let b = d * ((high + 1) * s);
    let mid = d * (high * s + (high + 1) * s);
    assert(a * q <= nq && nq < b * q);
    assert(a <= n) by (nonlinear_arith)
        requires
            a * q <= n * q,
            q > 0,
    ;
    assert(n < b) by (nonlinear_arith)
        requires
            n * q < b * q,
            q > 0,
    ;
    assert((2 * n) * q == 2 * nq) by (nonlinear_arith)
        requires
            nq == n * q,
    ;
    let t = 2 * n;
    assert((t > mid) == (t * q > mid * q)) by (nonlinear_arith)
        requires
            q > 0,
    ;
    assert((t == mid) == (t * q == mid * q)) by (nonlinear_arith)
        requires
            q > 0,
    ;
}

/// Code nearest to `n / d` units, from the leading digits of that quotient.
fn round_code(
    m: u128,
    e: i32,
    inexact: bool,
    Ghost(n): Ghost<int>,
    Ghost(d): Ghost<int>,
) -> (code: u64)
    requires
        0 < m < pow2(125),
        d > 0,
        -6000 <= e <= 6000,
        inexact ==> m >= pow2(54),
        scaled(n, d, m as int, e as int, inexact),
    ensures
        is_nearest(n, d, code as int),
        nearest(n, d) == code,
{
    let length = bit_length(m);
    let top: i32 = length as i32 + e;
    let k: i32 = if top > 53 { top - 53 } else { 0 };
    let shift: i32 = k - e;
    let ghost p = pow2((if e >= 0 { e as int } else { 0 }) as nat) as int;
    let ghost q = pow2((if e >= 0 { 0 } else { -e as int }) as nat) as int;
    let ghost s = pow2(k as nat) as int;
    proof {
        lemma2_to64();
        lemma2_to64_rest();
        lemma_pow2_pos((if e >= 0 { e as int } else { 0 }) as nat);
        lemma_pow2_pos((if e >= 0 { 0 } else { -e as int }) as nat);
        lemma_pow2_pos(k as nat);
        if length > 125 {
            if length > 126 {
                lemma_pow2_strictly_increases(125, (length - 1) as nat);
            }
            assert(false);
        }
        if inexact && length < 55 {
            lemma_pow2_increases(length as nat, 54);
            assert(false);
        }
    }
    if k > 2045 {
        proof {
            lemma_round_overflow(n, d, m as int, e as int, inexact, length as int);
            lemma_nearest_is(n, d, INFINITE as int);
        }
        return INFINITE;
    }
    if shift <= 0 {
        let factor = power((-shift) as u32);
        proof {
            lemma_round_exact(n, d, m as int, e as int, length as int, k as int, factor as int);
        }
        let significand: u128 = m * factor;
        let code: u64 = k as u64 * HIDDEN + significand as u64;
        proof {
            lemma_nearest_exact(n, d, code as int);
            lemma_nearest_is(n, d, code as int);
        }
        return code;
    }
    if shift >= length as i32 + 2 {
        proof {
            lemma_round_tiny(n, d, m as int, e as int, inexact, length as int);
            lemma_nearest_is(n, d, 0);
        }
        return 0;
    }
    let width = power(shift as u32);
    let high: u128 = m / width;
    let rest: u128 = m % width;
    let half: u128 = width / 2;
    proof {
        lemma_pow2_unfold(shift as nat);
        assert(s * q == width * p) by {
            if e >= 0 {
                lemma_pow2_adds(shift as nat, e as nat);
            } else {
                lemma_pow2_adds(k as nat, (-e) as nat);
                lemma2_to64();
            }
            assert(s * 1 == s) by (nonlinear_arith);
            assert(width * 1 == width) by (nonlinear_arith);
        }
        vstd::arithmetic::div_mod::lemma_fundamental_div_mod(m as int, width as int);
        assert(width * high == high * width) by (nonlinear_arith);
        lemma_split(
            n,
            d,
            p,
            q,
            width as int,
            s,
            m as int,
            high as int,
            rest as int,
            inexact,
            half as int,
        );
        lemma_significand(m as int, width as int, length as int, shift as int, k as int);
    }
    let floor: u64 = k as u64 * HIDDEN + high as u64;
    let up = rest > half || (rest == half && (inexact || floor % 2 == 1));
    proof {
        lemma_code_of(high as int, k as int);
        lemma_nearest_between(n, d, floor as int, up);
        lemma_nearest_is(n, d, if up { floor + 1 } else { floor as int });
    }
    if up {
        floor + 1
    } else {
        floor
    }
}

proof fn lemma_pow2_increases(a: nat, b: nat)
    requires
        a <= b,
    ensures
        pow2(a) <= pow2(b),
{
    if a < b {
        lemma_pow2_strictly_increases(a, b);
    }
}

/// The digits kept of `m` are a significand.
proof fn lemma_significand(m: int, width: int, length: int, shift: int, k: int)
    requires
        1 <= length,
        shift > 0,
        k >= 0,
        pow2((length - 1) as nat) <= m < pow2(length as nat),
        width == pow2(shift as nat),
        k > 0 ==> shift == length - 53,
        k == 0 ==> length - shift <= 53,
    ensures
        0 <= m / width < 2 * HIDDEN,
        k == 0 || m / width >= HIDDEN,
{
    lemma2_to64();
    lemma2_to64_rest();
    lemma_pow2_pos(shift as nat);
    let high = m / width;
    lemma_pow2_increases(length as nat, (shift + 53) as nat);
    lemma_pow2_adds(53, shift as nat);
    assert(0 <= high < 2 * HIDDEN) by (nonlinear_arith)
        requires
            high == m / width,
            0 <= m < 2 * HIDDEN * width,
            width > 0,
    ;
    if k > 0 {
        lemma_pow2_adds(52, shift as nat);
        assert(high >= HIDDEN) by (nonlinear_arith)
            requires
                high == m / width,
                m >= HIDDEN * width,
                width > 0,
        ;
    }
}

pub(crate) proof fn lemma_infinite_units()
    ensures
        code_units(INFINITE as int) == pow2(2098),
{
    assert(INFINITE as int / HIDDEN as int == 2047 && INFINITE as int % HIDDEN as int == 0);
    lemma_pow2_adds(52, 2046);
    lemma2_to64_rest();
}

proof fn lemma_round_overflow(n: int, d: int, m: int, e: int, inexact: bool, length: int)
    requires
        d > 0,
        1 <= length <= 125,
        length + e >= 2099,
        m >= pow2((length - 1) as nat),
        scaled(n, d, m, e, inexact),
    ensures
        is_nearest(n, d, INFINITE as int),
{
    let p = pow2(e as nat) as int;
    lemma2_to64();
    lemma_pow2_pos(e as nat);
    assert(n * 1 == n) by (nonlinear_arith);
    assert(n >= (d * p) * m);
    let low = pow2((length - 1) as nat) as int;
    lemma_pow2_adds(e as nat, (length - 1) as nat);
    lemma_pow2_increases(2098, (e + length - 1) as nat);
    let bound = pow2(2098) as int;
    assert((d * p) * m >= d * bound) by (nonlinear_arith)
        requires
            d > 0,
            p > 0,
            m >= low,
            p * low >= bound,
    ;
    lemma_infinite_units();
    lemma_code_step(INFINITE - 1);
    let w = code_units(INFINITE - 1);
    assert(2 * n > d * (w + bound)) by (nonlinear_arith)
        requires
            d > 0,
            n >= d * bound,
            w < bound,
    ;
}

proof fn lemma_round_exact(n: int, d: int, m: int, e: int, length: int, k: int, factor: int)
    requires
        d > 0,
        1 <= length,
        0 <= k <= e,
        k == if length + e > 53 { length + e - 53 } else { 0 },
        pow2((length - 1) as nat) <= m < pow2(length as nat),
        factor == pow2((e - k) as nat),
        scaled(n, d, m, e, false),
    ensures
        0 <= m * factor < 2 * HIDDEN,
        k == 0 || m * factor >= HIDDEN,
        n == d * code_units(k * HIDDEN + m * factor),
{
    lemma2_to64();
    lemma2_to64_rest();
    let p = pow2(e as nat) as int;
    let s = pow2(k as nat) as int;
    lemma_pow2_adds((e - k) as nat, k as nat);
    lemma_pow2_pos((e - k) as nat);
    assert(n * 1 == n) by (nonlinear_arith);
    let upper = pow2(length as nat) as int;
    let lower = pow2((length - 1) as nat) as int;
    lemma_pow2_adds(length as nat, (e - k) as nat);
    lemma_pow2_increases((length + e - k) as nat, 53);
    assert(0 <= m * factor < upper * factor) by (nonlinear_arith)
        requires
            0 <= m < upper,
            factor > 0,
    ;
    if k > 0 {
        lemma_pow2_adds((length - 1) as nat, (e - k) as nat);
        assert(m * factor >= lower * factor) by (nonlinear_arith)
            requires
                m >= lower,
                factor > 0,
        ;
    }
    lemma_code_of(m * factor, k);
    assert((d * p) * m == d * ((m * factor) * s)) by (nonlinear_arith)
        requires
            p == factor * s,
    ;
}

proof fn lemma_round_tiny(n: int, d: int, m: int, e: int, inexact: bool, length: int)
    requires
        d > 0,
        1 <= length,
        e < 0,
        -e >= length + 2,
        0 < m < pow2(length as nat),
        scaled(n, d, m, e, inexact),
    ensures
        is_nearest(n, d, 0),
{
    lemma2_to64();
    let q = pow2((-e) as nat) as int;
    let limit = pow2(length as nat) as int;
    lemma_pow2_pos(length as nat);
    lemma_pow2_adds(2, length as nat);
    lemma_pow2_increases((length + 2) as nat, (-e) as nat);
    assert(d * 1 == d) by (nonlinear_arith);
    assert(d * (m + 1) <= d * limit) by (nonlinear_arith)
        requires
            d > 0,
            m + 1 <= limit,
    ;
    assert(d * m <= d * limit && d * m > 0) by (nonlinear_arith)
        requires
            d > 0,
            0 < m < limit,
    ;
    assert(n * q <= d * limit && n * q > 0);
    assert(n > 0) by (nonlinear_arith)
        requires
            n * q > 0,
            q > 0,
    ;
    assert(4 * n <= d) by (nonlinear_arith)
        requires
            n > 0,
            n * q <= d * limit,
            q >= 4 * limit,
            limit > 0,
    ;
    assert(code_units(0) == 0 && code_units(1) == 1);
}

impl Double {
    /// Magnitude code: the bits without the sign.
    pub open spec fn code(self) -> int {
        self.bits as int % SIGN as int
    }

    pub open spec fn negative(self) -> bool {
        self.bits >= SIGN
    }

    pub open spec fn nan(self) -> bool {
        self.code() > INFINITE
    }

    pub open spec fn infinite(self) -> bool {
        self.code() == INFINITE
    }

    pub open spec fn finite(self) -> bool {
        self.code() < INFINITE
    }

    /// Exact value of a finite number in units of 2^-1074.
    pub open spec fn units(self) -> int {
        if self.negative() {
            -code_units(self.code())
        } else {
            code_units(self.code())
        }
    }

    /// Position in the numeric order; the two zeros share one.
    pub open spec fn key(self) -> int {
        if self.negative() {
            -self.code()
        } else {
            self.code()
        }
    }

    /// Numeric `<`; false when either side is NaN.
    pub open spec fn less(self, other: Double) -> bool {
        !self.nan() && !other.nan() && self.key() < other.key()
    }

    /// Numeric `<=`; false when either side is NaN.
    pub open spec fn at_most(self, other: Double) -> bool {
        !self.nan() && !other.nan() && self.key() <= other.key()
    }

    /// Numeric `==`; false when either side is NaN.
    pub open spec fn same(self, other: Double) -> bool {
        !self.nan() && !other.nan() && self.key() == other.key()
    }

    pub open spec fn signed(negative: bool, code: int) -> Double {
        Double {
            bits: (if negative {
                code + SIGN
            } else {
                code
            }) as u64,
        }
    }

    pub open spec fn quiet_nan() -> Double {
        Double { bits: QUIET_NAN }
    }

    pub open spec fn negated(self) -> Double {
        Double::signed(!self.negative(), self.code())
    }

    pub open spec fn magnitude(self) -> Double {
        Double::signed(false, self.code())
    }

    /// `self + other`.
    pub open spec fn sum(self, other: Double) -> Double {
        if self.nan() || other.nan() {
            Double::quiet_nan()
        } else if self.infinite() {
            if other.infinite() && self.negative() != other.negative() {
                Double::quiet_nan()
            } else {
                self
            }
        } else if other.infinite() {
            other
        } else {
            let exact = self.units() + other.units();
            if exact == 0 {
                Double::signed(self.negative() && other.negative(), 0)
            } else if exact < 0 {
                Double::signed(true, nearest(-exact, 1))
            } else {
                Double::signed(false, nearest(exact, 1))
            }
        }
    }

    /// `self - other`.
    pub open spec fn difference(self, other: Double) -> Double {
        self.sum(other.negated())
    }

    /// `self * other`.
    pub open spec fn product(self, other: Double) -> Double {
        let negative = self.negative() != other.negative();
        if self.nan() || other.nan() {
            Double::quiet_nan()
        } else if self.infinite() || other.infinite() {
            if self.code() == 0 || other.code() == 0 {
                Double::quiet_nan()
            } else {
                Double::signed(negative, INFINITE as int)
            }
        } else {
            let exact = code_units(self.code()) * code_units(other.code());
            Double::signed(negative, nearest(exact, pow2(1074) as int))
        }
    }

    /// `self / other`.
    pub open spec fn quotient(self, other: Double) -> Double {
        let negative = self.negative() != other.negative();
        if self.nan() || other.nan() {
            Double::quiet_nan()
        } else if self.infinite() {
            if other.infinite() {
                Double::quiet_nan()
            } else {
                Double::signed(negative, INFINITE as int)
            }
        } else if other.infinite() {
            Double::signed(negative, 0)
        } else if other.code() == 0 {
            if self.code() == 0 {
                Double::quiet_nan()
            } else {
                Double::signed(negative, INFINITE as int)
            }
        } else {
            let exact = code_units(self.code()) * pow2(1074);
            Double::signed(negative, nearest(exact, code_units(other.code())))
        }
    }

    /// The number nearest to the integer `n`.
    pub open spec fn of_nat(n: nat) -> Double {
        Double::signed(false, nearest((n * pow2(1074)) as int, 1))
    }

    pub fn from_bits(bits: u64) -> (result: Double)
        ensures
            result.bits == bits,
    {
        Double { bits }
    }

    pub fn to_bits(self) -> (bits: u64)
        ensures
            bits == self.bits,
    {
        self.bits
    }

    fn magnitude_code(self) -> (code: u64)
        ensures
            code == self.code(),
    {
        self.bits % SIGN
    }

    fn sign(self) -> (negative: bool)
        ensures
            negative == self.negative(),
    {
        self.bits >= SIGN
    }

    fn with_sign(negative: bool, code: u64) -> (result: Double)
        requires
            code < SIGN,
        ensures
            result == Double::signed(negative, code as int),
            result.code() == code,
            result.negative() == negative,
    {
        if negative {
            Double { bits: code + SIGN }
        } else {
            Double { bits: code }
        }
    }

    pub fn is_finite(self) -> (result: bool)
        ensures
            result == self.finite(),
    {
        self.magnitude_code() < INFINITE
    }

    pub fn is_negative(self) -> (result: bool)
        ensures
            result == self.negative(),
    {
        self.sign()
    }

    pub fn is_nan(self) -> (result: bool)
        ensures
            result == self.nan(),
    {
        self.magnitude_code() > INFINITE
    }

    /// Numeric `<`.
    pub fn lt(self, other: Double) -> (result: bool)
        ensures
            result == self.less(other),
    {
        let a = self.magnitude_code();
        let b = other.magnitude_code();
        if a > INFINITE || b > INFINITE {
            return false;
        }
        match (self.sign(), other.sign()) {
            (false, false) => a < b,
            (true, true) => b < a,
            (true, false) => a > 0 || b > 0,
            (false, true) => false,
        }
    }

    /// Numeric `<=`.
    pub fn le(self, other: Double) -> (result: bool)
        ensures
            result == self.at_most(other),
    {
        if self.is_nan() || other.is_nan() {
            false
        } else {
            !other.lt(self)
        }
    }

    /// Numeric `==`.
    pub fn equals(self, other: Double) -> (result: bool)
        ensures
            result == self.same(other),
    {
        self.le(other) && other.le(self)
    }

    pub fn neg(self) -> (result: Double)
        ensures
            result == self.negated(),
    {
        Double::with_sign(!self.sign(), self.magnitude_code())
    }

    pub fn abs(self) -> (result: Double)
        ensures
            result == self.magnitude(),
    {
        Double::with_sign(false, self.magnitude_code())
    }

    /// Significand and exponent of a finite number.
    pub(crate) fn parts(self) -> (parts: (u64, u32))
        requires
            self.finite(),
        ensures
            parts.0 < 2 * HIDDEN,
            parts.1 <= 2045,
            parts.1 == 0 || parts.0 >= HIDDEN,
            self.code() == parts.1 * HIDDEN + parts.0,
            code_units(self.code()) == parts.0 * pow2(parts.1 as nat),
    {
        let code = self.magnitude_code();
        let exponent: u64 = code / HIDDEN;
        let fraction: u64 = code % HIDDEN;
        if exponent == 0 {
            proof {
                lemma_code_of(fraction as int, 0);
            }
            (fraction, 0)
        } else {
            proof {
                lemma_code_of(HIDDEN + fraction, exponent - 1);
            }
            (HIDDEN + fraction, (exponent - 1) as u32)
        }
    }
}

proof fn lemma_scaled_exact_positive(n: int, m: int, e: int)
    requires
        e >= 0,
        n == m * pow2(e as nat),
    ensures
        scaled(n, 1, m, e, false),
{
    lemma2_to64();
    let p = pow2(e as nat) as int;
    assert(n * 1 == (1 * p) * m) by (nonlinear_arith)
        requires
            n == m * p,
    ;
}

/// A number far below the spacing at `code` does not move it.
proof fn lemma_absorbed(m: int, e: int, small: int, add: bool)
    requires
        HIDDEN <= m < 2 * HIDDEN,
        70 < e <= 2045,
        0 <= small < pow2((e - 2) as nat),
    ensures
        is_nearest(
            if add {
                m * pow2(e as nat) + small
            } else {
                m * pow2(e as nat) - small
            },
            1,
            e * HIDDEN + m,
        ),
{
    let code = e * HIDDEN + m;
    let s = pow2(e as nat) as int;
    let t = pow2((e - 2) as nat) as int;
    lemma_pow2_adds(2, (e - 2) as nat);
    lemma2_to64();
    assert(s == 4 * t);
    lemma_code_of(m, e);
    assert((m + 1) * s == m * s + s) by (nonlinear_arith);
    if m > HIDDEN {
        lemma_code_of(m - 1, e);
        assert((m - 1) * s == m * s - s) by (nonlinear_arith);
    } else {
        lemma_code_of(2 * HIDDEN - 1, e - 1);
        assert((e - 1) * HIDDEN + (2 * HIDDEN - 1) == code - 1) by (nonlinear_arith)
            requires
                code == e * HIDDEN + m,
                m == HIDDEN,
        ;
        lemma_pow2_unfold(e as nat);
        let h = pow2((e - 1) as nat) as int;
        assert((2 * HIDDEN - 1) * h == m * s - h) by (nonlinear_arith)
            requires
                m == HIDDEN,
                s == 2 * h,
        ;
    }
    assert(code <= INFINITE);
}

impl Double {
    /// `self + other`.
    pub fn plus(self, other: Double) -> (result: Double)
        ensures
            result == self.sum(other),
    {
        if self.is_nan() || other.is_nan() {
            return Double { bits: QUIET_NAN };
        }
        if !self.is_finite() {
            if !other.is_finite() && self.sign() != other.sign() {
                return Double { bits: QUIET_NAN };
            }
            return self;
        }
        if !other.is_finite() {
            return other;
        }
        let (_, e1) = self.parts();
        let (_, e2) = other.parts();
        if e1 >= e2 {
            Double::plus_ordered(self, other)
        } else {
            Double::plus_ordered(other, self)
        }
    }

    /// Sum of two finite numbers, the one with the larger exponent first.
    fn plus_ordered(a: Double, b: Double) -> (result: Double)
        requires
            a.finite(),
            b.finite(),
            a.code() / HIDDEN as int >= b.code() / HIDDEN as int || (a.code() < HIDDEN && b.code() < 2 * HIDDEN),
        ensures
            result == a.sum(b),
            result == b.sum(a),
    {
        let (m1, e1) = a.parts();
        let (m2, e2) = b.parts();
        proof {
            lemma_code_order(0, a.code());
            lemma_code_order(0, b.code());
            assert(e1 >= e2) by {
                lemma_exponent(a.code(), m1 as int, e1 as int);
                lemma_exponent(b.code(), m2 as int, e2 as int);
            }
        }
        let gap: u32 = e1 - e2;
        if gap > 70 {
            return Double::plus_far(a, b, m1, e1, m2, e2);
        }
        let factor = power(gap);
        proof {
            lemma2_to64();
            lemma2_to64_rest();
            lemma_pow2_increases(gap as nat, 70);
            lemma_pow2_adds(64, 6);
            lemma_pow2_adds(54, 71);
            lemma_pow2_adds(64, 7);
            lemma_pow2_adds(gap as nat, e2 as nat);
            assert(m1 * factor <= 2 * HIDDEN * factor) by (nonlinear_arith)
                requires
                    m1 < 2 * HIDDEN,
                    factor > 0,
            ;
        }
        let large: i128 = (m1 as u128 * factor) as i128;
        let v1: i128 = if a.sign() { -large } else { large };
        let v2: i128 = if b.sign() { -(m2 as i128) } else { m2 as i128 };
        let v: i128 = v1 + v2;
        proof {
            let s = pow2(e2 as nat) as int;
            let f = factor as int;
            lemma_pow2_pos(e2 as nat);
            assert(code_units(a.code()) == large * s) by (nonlinear_arith)
                requires
                    code_units(a.code()) == m1 * (f * s),
                    large == m1 * f,
            ;
            assert((-large) * s == -(large * s)) by (nonlinear_arith);
            assert((-(m2 as int)) * s == -(m2 * s)) by (nonlinear_arith);
            assert(v * s == v1 * s + v2 * s) by (nonlinear_arith)
                requires
                    v == v1 + v2,
            ;
            assert(a.units() + b.units() == v * s);
            assert((v == 0) == (v * s == 0) && (v < 0) == (v * s < 0)) by (nonlinear_arith)
                requires
                    s > 0,
            ;
            assert((-(v as int)) * s == -(v * s)) by (nonlinear_arith);
        }
        if v == 0 {
            Double::with_sign(a.sign() && b.sign(), 0)
        } else if v < 0 {
            let ghost exact = -(a.units() + b.units());
            proof {
                lemma_scaled_exact_positive(exact, -(v as int), e2 as int);
            }
            let code = round_code((-v) as u128, e2 as i32, false, Ghost(exact), Ghost(1));
            Double::with_sign(true, code)
        } else {
            let ghost exact = a.units() + b.units();
            proof {
                lemma_scaled_exact_positive(exact, v as int, e2 as int);
            }
            let code = round_code(v as u128, e2 as i32, false, Ghost(exact), Ghost(1));
            Double::with_sign(false, code)
        }
    }

    /// Sum of two finite numbers whose exponents are far apart.
    fn plus_far(a: Double, b: Double, m1: u64, e1: u32, m2: u64, e2: u32) -> (result: Double)
        requires
            a.finite(),
            b.finite(),
            e1 <= 2045,
            e1 > e2 + 70,
            HIDDEN <= m1 < 2 * HIDDEN,
            m2 < 2 * HIDDEN,
            a.code() == e1 * HIDDEN + m1,
            code_units(a.code()) == m1 * pow2(e1 as nat),
            code_units(b.code()) == m2 * pow2(e2 as nat),
        ensures
            result == a.sum(b),
            result == b.sum(a),
    {
        proof {
            let small = m2 * pow2(e2 as nat);
            let s = pow2(e2 as nat) as int;
            lemma2_to64_rest();
            lemma_pow2_pos(e2 as nat);
            lemma_pow2_adds(53, e2 as nat);
            lemma_pow2_increases((53 + e2) as nat, (e1 - 2) as nat);
            assert(0 <= small < 2 * HIDDEN * s) by (nonlinear_arith)
                requires
                    small == m2 * s,
                    0 <= m2 < 2 * HIDDEN,
                    s > 0,
            ;
            lemma_absorbed(m1 as int, e1 as int, small, true);
            lemma_absorbed(m1 as int, e1 as int, small, false);
            let big = m1 * pow2(e1 as nat);
            lemma_pow2_increases((e1 - 2) as nat, e1 as nat);
            lemma_nearest_is(big + small, 1, a.code());
            lemma_nearest_is(big - small, 1, a.code());
            assert(big > small) by (nonlinear_arith)
                requires
                    big == m1 * pow2(e1 as nat),
                    m1 >= HIDDEN,
                    small < pow2((e1 - 2) as nat),
                    pow2((e1 - 2) as nat) <= pow2(e1 as nat),
            ;
        }
        a
    }

    /// `self - other`.
    pub fn minus(self, other: Double) -> (result: Double)
        ensures
            result == self.difference(other),
    {
        self.plus(other.neg())
    }
}

proof fn lemma_exponent(code: int, m: int, e: int)
    requires
        0 <= m < 2 * HIDDEN,
        e >= 0,
        e == 0 || m >= HIDDEN,
        code == e * HIDDEN + m,
    ensures
        m < HIDDEN ==> code / HIDDEN as int == 0,
        m >= HIDDEN ==> code / HIDDEN as int == e + 1,
{
    let h = HIDDEN as int;
    if m >= HIDDEN {
        assert(code / h == e + 1) by (nonlinear_arith)
            requires
                code == e * h + m,
                h <= m < 2 * h,
        ;
    }
}

/// The product of two values with significands `m1`, `m2` and exponents `e1`,
/// `e2`.
proof fn lemma_product_scaled(m1: int, e1: int, m2: int, e2: int)
    requires
        e1 >= 0,
        e2 >= 0,
    ensures
        scaled(
            (m1 * pow2(e1 as nat)) * (m2 * pow2(e2 as nat)),
            pow2(1074) as int,
            m1 * m2,
            e1 + e2 - 1074,
            false,
        ),
{
    lemma2_to64();
    let e = e1 + e2 - 1074;
    let a = pow2(e1 as nat) as int;
    let b = pow2(e2 as nat) as int;
    let d = pow2(1074) as int;
    lemma_pow2_adds(e1 as nat, e2 as nat);
    let n = (m1 * a) * (m2 * b);
    assert(n == (m1 * m2) * (a * b)) by (nonlinear_arith)
        requires
            n == (m1 * a) * (m2 * b),
    ;
    if e >= 0 {
        let p = pow2(e as nat) as int;
        lemma_pow2_adds(1074, e as nat);
        assert(n * 1 == (d * p) * (m1 * m2)) by (nonlinear_arith)
            requires
                n == (m1 * m2) * (d * p),
        ;
    } else {
        let q = pow2((-e) as nat) as int;
        lemma_pow2_adds((e1 + e2) as nat, (-e) as nat);
        let ab = a * b;
        assert(n * q == (d * 1) * (m1 * m2)) by (nonlinear_arith)
            requires
                n == (m1 * m2) * ab,
                ab * q == d,
        ;
    }
}

pub(crate) proof fn lemma_nearest_zero(d: int)
    requires
        d > 0,
    ensures
        nearest(0, d) == 0,
{
    assert(d * (0 + 1) > 0) by (nonlinear_arith)
        requires
            d > 0,
    ;
    assert(code_units(0) == 0 && code_units(1) == 1);
    lemma_nearest_is(0, d, 0);
}

/// Digits of a quotient of two 53-digit significands.
proof fn lemma_quotient_scaled(
    ua: int,
    ub: int,
    m1: int,
    e1: int,
    s1: int,
    m2: int,
    e2: int,
    s2: int,
    high: int,
    rest: int,
)
    requires
        e1 >= 0,
        e2 >= 0,
        0 <= s1 <= 60,
        0 <= s2 <= 60,
        m2 > 0,
        ub > 0,
        ua * pow2(s1 as nat) == m1 * pow2(e1 as nat),
        ub * pow2(s2 as nat) == m2 * pow2(e2 as nat),
        m1 * pow2(66) == high * m2 + rest,
        0 <= rest < m2,
    ensures
        scaled(
            ua * pow2(1074),
            ub,
            high,
            e1 - s1 - e2 + s2 + 1008,
            rest != 0,
        ),
{
    lemma2_to64();
    let e = e1 - s1 - e2 + s2 + 1008;
    let n = ua * pow2(1074);
    let p = pow2((if e >= 0 { e } else { 0 }) as nat) as int;
    let q = pow2((if e >= 0 { 0 } else { -e }) as nat) as int;
    let x1 = pow2(s1 as nat) as int;
    let x2 = pow2(s2 as nat) as int;
    let y1 = pow2(e1 as nat) as int;
    let y2 = pow2(e2 as nat) as int;
    let k = pow2(1074) as int;
    let g = pow2(66) as int;
    let c = pow2(1008) as int;
    lemma_pow2_adds(66, 1008);
    lemma_pow2_pos(s1 as nat);
    lemma_pow2_pos(s2 as nat);
    lemma_pow2_pos(e1 as nat);
    lemma_pow2_pos(e2 as nat);
    lemma_pow2_pos(1008);
    lemma_pow2_pos((if e >= 0 { e } else { 0 }) as nat);
    lemma_pow2_pos((if e >= 0 { 0 } else { -e }) as nat);
    // y1 * x2 * c * q == x1 * y2 * p
    let left = (y1 * x2) * (c * q);
    let right = (x1 * y2) * p;
    assert(left == right) by {
        lemma_pow2_adds(e1 as nat, s2 as nat);
        lemma_pow2_adds(s1 as nat, e2 as nat);
        if e >= 0 {
            assert(c * 1 == c) by (nonlinear_arith);
            lemma_pow2_adds((e1 + s2) as nat, 1008);
            lemma_pow2_adds((s1 + e2) as nat, e as nat);
        } else {
            lemma_pow2_adds(1008, (-e) as nat);
            lemma_pow2_adds((e1 + s2) as nat, (1008 - e) as nat);
            assert((x1 * y2) * 1 == x1 * y2) by (nonlinear_arith);
        }
    }
    // n * q * (x1 * x2) == (m1 * g) * left
    let z = x1 * x2;
    assert(z > 0) by (nonlinear_arith)
        requires
            z == x1 * x2,
            x1 > 0,
            x2 > 0,
    ;
    assert(left > 0) by {
        let a = y1 * x2;
        let b = c * q;
        assert(a > 0 && b > 0) by (nonlinear_arith)
            requires
                a == y1 * x2,
                b == c * q,
                y1 > 0,
                x2 > 0,
                c > 0,
                q > 0,
        ;
        assert(left > 0) by (nonlinear_arith)
            requires
                left == a * b,
                a > 0,
                b > 0,
        ;
    }
    assert((n * q) * z == (m1 * g) * left) by {
        let nq = n * q;
        calc! {
            (==)
            nq * z; {
                assert(nq * z == ((ua * x1) * (x2 * q)) * k) by (nonlinear_arith)
                    requires
                        nq == (ua * k) * q,
                        z == x1 * x2,
                ;
            }
            ((ua * x1) * (x2 * q)) * k; {
                let w = y1 * x2;
                let v = w * q;
                assert((m1 * y1) * (x2 * q) == m1 * v) by (nonlinear_arith)
                    requires
                        w == y1 * x2,
                        v == w * q,
                ;
                assert((m1 * v) * (g * c) == (m1 * g) * (v * c)) by (nonlinear_arith);
                assert(v * c == w * (c * q)) by (nonlinear_arith)
                    requires
                        v == w * q,
                ;
            }
            (m1 * g) * left;
        }
    }
    assert forall|h: int| #[trigger] ((ub * p) * h) * z == (h * m2) * left by {
        let up = ub * p;
        let uy = ub * x2;
        assert((up * h) * z == (uy * h) * (x1 * p)) by (nonlinear_arith)
            requires
                up == ub * p,
                uy == ub * x2,
                z == x1 * x2,
        ;
        assert((uy * h) * (x1 * p) == (h * m2) * left) by (nonlinear_arith)
            requires
                uy == m2 * y2,
                left == (x1 * y2) * p,
        ;
    }
    let low = (ub * p) * high;
    let top = (ub * p) * (high + 1);
    assert(low * z == (high * m2) * left);
    assert(top * z == ((high + 1) * m2) * left);
    let num = m1 * g;
    let nq = n * q;
    assert((high + 1) * m2 == high * m2 + m2) by (nonlinear_arith);
    let lo = high * m2;
    let hi = (high + 1) * m2;
    assert(nq * z < top * z) by (nonlinear_arith)
        requires
            nq * z == num * left,
            top * z == hi * left,
            num < hi,
            left > 0,
    ;
    assert(nq < top) by (nonlinear_arith)
        requires
            nq * z < top * z,
            z > 0,
    ;
    if rest == 0 {
        assert(nq == low) by (nonlinear_arith)
            requires
                nq * z == low * z,
                z > 0,
        ;
    } else {
        assert(low * z < nq * z) by (nonlinear_arith)
            requires
                nq * z == num * left,
                low * z == lo * left,
                lo < num,
                left > 0,
        ;
        assert(low < nq) by (nonlinear_arith)
            requires
                low * z < nq * z,
                z > 0,
        ;
    }
}

impl Double {
    /// `self * other`.
    pub fn times(self, other: Double) -> (result: Double)
        ensures
            result == self.product(other),
    {
        let negative = self.sign() != other.sign();
        if self.is_nan() || other.is_nan() {
            return Double { bits: QUIET_NAN };
        }
        if !self.is_finite() || !other.is_finite() {
            if self.magnitude_code() == 0 || other.magnitude_code() == 0 {
                return Double { bits: QUIET_NAN };
            }
            return Double::with_sign(negative, INFINITE);
        }
        let (m1, e1) = self.parts();
        let (m2, e2) = other.parts();
        proof {
            lemma_pow2_pos(1074);
        }
        if m1 == 0 || m2 == 0 {
            proof {
                let a = code_units(self.code());
                let b = code_units(other.code());
                assert(a * b == 0) by (nonlinear_arith)
                    requires
                        a == m1 * pow2(e1 as nat),
                        b == m2 * pow2(e2 as nat),
                        m1 == 0 || m2 == 0,
                ;
                lemma_nearest_zero(pow2(1074) as int);
            }
            return Double::with_sign(negative, 0);
        }
        proof {
            assert(0 < m1 * m2 < 4 * HIDDEN * HIDDEN) by (nonlinear_arith)
                requires
                    0 < m1 < 2 * HIDDEN,
                    0 < m2 < 2 * HIDDEN,
            ;
            lemma2_to64();
            lemma2_to64_rest();
            lemma_pow2_adds(53, 53);
            lemma_pow2_increases(106, 125);
            lemma_product_scaled(m1 as int, e1 as int, m2 as int, e2 as int);
        }
        let m: u128 = m1 as u128 * m2 as u128;
        let ghost exact = code_units(self.code()) * code_units(other.code());
        let code = round_code(
            m,
            e1 as i32 + e2 as i32 - 1074,
            false,
            Ghost(exact),
            Ghost(pow2(1074) as int),
        );
        Double::with_sign(negative, code)
    }

    /// A nonzero significand shifted to 53 binary digits, with the shift.
    fn normalized(m: u64) -> (result: (u128, u32))
        requires
            0 < m < 2 * HIDDEN,
        ensures
            HIDDEN <= result.0 < 2 * HIDDEN,
            result.1 <= 52,
            result.0 == m * pow2(result.1 as nat),
    {
        let length = bit_length(m as u128);
        proof {
            lemma2_to64();
            lemma2_to64_rest();
            if length > 53 {
                lemma_pow2_increases(53, (length - 1) as nat);
            }
        }
        let shift: u32 = 53 - length;
        let factor = power(shift);
        proof {
            let f = factor as int;
            let lower = pow2((length - 1) as nat) as int;
            let upper = pow2(length as nat) as int;
            lemma_pow2_adds((length - 1) as nat, shift as nat);
            lemma_pow2_adds(length as nat, shift as nat);
            assert(lower * f <= m * f < upper * f) by (nonlinear_arith)
                requires
                    lower <= m < upper,
                    f > 0,
            ;
        }
        (m as u128 * factor, shift)
    }

    /// `self / other`.
    pub fn over(self, other: Double) -> (result: Double)
        ensures
            result == self.quotient(other),
    {
        let negative = self.sign() != other.sign();
        if self.is_nan() || other.is_nan() {
            return Double { bits: QUIET_NAN };
        }
        if !self.is_finite() {
            if !other.is_finite() {
                return Double { bits: QUIET_NAN };
            }
            return Double::with_sign(negative, INFINITE);
        }
        if !other.is_finite() {
            return Double::with_sign(negative, 0);
        }
        if other.magnitude_code() == 0 {
            if self.magnitude_code() == 0 {
                return Double { bits: QUIET_NAN };
            }
            return Double::with_sign(negative, INFINITE);
        }
        proof {
            assert(code_units(0) == 0);
            lemma_code_order(0, other.code());
            lemma_code_order(0, self.code());
        }
        if self.magnitude_code() == 0 {
            proof {
                let k = pow2(1074) as int;
                assert(0 * k == 0) by (nonlinear_arith);
                lemma_nearest_zero(code_units(other.code()));
            }
            return Double::with_sign(negative, 0);
        }
        let (m1, e1) = self.parts();
        let (m2, e2) = other.parts();
        proof {
            let p1 = pow2(e1 as nat) as int;
            let p2 = pow2(e2 as nat) as int;
            assert(0 * p1 == 0) by (nonlinear_arith);
            assert(0 * p2 == 0) by (nonlinear_arith);
        }
        let (d1, s1) = Double::normalized(m1);
        let (d2, s2) = Double::normalized(m2);
        let scale = power(66);
        proof {
            lemma2_to64();
            lemma2_to64_rest();
            lemma_pow2_adds(64, 2);
            lemma_pow2_adds(53, 66);
            let g = scale as int;
            assert(HIDDEN * g <= d1 * g < 2 * HIDDEN * g) by (nonlinear_arith)
                requires
                    HIDDEN <= d1 < 2 * HIDDEN,
                    g > 0,
            ;
        }
        let number: u128 = d1 * scale;
        let high: u128 = number / d2;
        let rest: u128 = number % d2;
        let e: i32 = e1 as i32 - s1 as i32 - e2 as i32 + s2 as i32 + 1008;
        proof {
            vstd::arithmetic::div_mod::lemma_fundamental_div_mod(number as int, d2 as int);
            assert(d2 * high == high * d2) by (nonlinear_arith);
            let p1 = pow2(e1 as nat) as int;
            let p2 = pow2(e2 as nat) as int;
            let x1 = pow2(s1 as nat) as int;
            let x2 = pow2(s2 as nat) as int;
            let ua = code_units(self.code());
            let ub = code_units(other.code());
            assert(ua * x1 == d1 * p1) by (nonlinear_arith)
                requires
                    ua == m1 * p1,
                    d1 == m1 * x1,
            ;
            assert(ub * x2 == d2 * p2) by (nonlinear_arith)
                requires
                    ub == m2 * p2,
                    d2 == m2 * x2,
            ;
            lemma_quotient_scaled(
                ua,
                ub,
                d1 as int,
                e1 as int,
                s1 as int,
                d2 as int,
                e2 as int,
                s2 as int,
                high as int,
                rest as int,
            );
            let t = pow2(54) as int;
            lemma_pow2_increases(119, 125);
            assert(high >= t) by (nonlinear_arith)
                requires
                    high == number / d2,
                    number >= HIDDEN * 0x4_0000_0000_0000_0000,
                    0 < d2 < 2 * HIDDEN,
                    t == 0x40_0000_0000_0000,
            ;
            assert(high <= number) by (nonlinear_arith)
                requires
                    high == number / d2,
                    d2 >= 1,
            ;
        }
        let code = round_code(
            high,
            e,
            rest != 0,
            Ghost(code_units(self.code()) * pow2(1074)),
            Ghost(code_units(other.code())),
        );
        Double::with_sign(negative, code)
    }

    /// The number nearest to `n`.
    pub fn from_u64(n: u64) -> (result: Double)
        ensures
            result == Double::of_nat(n as nat),
    {
        proof {
            lemma2_to64();
        }
        if n == 0 {
            proof {
                assert(0 * pow2(1074) == 0) by (nonlinear_arith);
                lemma_nearest_zero(1);
            }
            return Double::with_sign(false, 0);
        }
        let ghost exact = (n * pow2(1074)) as int;
        proof {
            lemma_scaled_exact_positive(exact, n as int, 1074);
            lemma_pow2_increases(64, 125);
        }
        let code = round_code(n as u128, 1074, false, Ghost(exact), Ghost(1));
        Double::with_sign(false, code)
    }

    /// The number nearest to the integer `n`.
    pub open spec fn of_int(n: int) -> Double {
        if n < 0 {
            Double::of_nat((-n) as nat).negated()
        } else {
            Double::of_nat(n as nat)
        }
    }

    /// The number nearest to `n`.
    pub fn from_i32(n: i32) -> (result: Double)
        ensures
            result == Double::of_int(n as int),
    {
        let wide: i64 = n as i64;
        if wide < 0 {
            Double::from_u64((-wide) as u64).neg()
        } else {
            Double::from_u64(wide as u64)
        }
    }
}

impl PartialEq for Double {
    fn eq(&self, other: &Double) -> (result: bool) {
        self.equals(*other)
    }
}

impl vstd::std_specs::cmp::PartialEqSpecImpl for Double {
    open spec fn obeys_eq_spec() -> bool {
        true
    }

    open spec fn eq_spec(&self, other: &Double) -> bool {
        self.same(*other)
    }
}

impl Double {
    /// The number limited to `low..=high`.
    pub open spec fn limited(self, low: Double, high: Double) -> Double {
        if self.less(low) {
            low
        } else if high.less(self) {
            high
        } else {
            self
        }
    }

    pub fn clamp(self, low: Double, high: Double) -> (result: Double)
        ensures
            result == self.limited(low, high),
    {
        if self.lt(low) {
            low
        } else if high.lt(self) {
            high
        } else {
            self
        }
    }

    /// The integer nearest to `factor` times the number, halves going to the even one.
    pub fn scaled_half_even(self, factor: u32) -> (result: u128)
        requires
            crate::pause::Pause::holds(self),
        ensures
            result == crate::pause::half_even(self.units() * factor, pow2(1074) as int),
            result <= u64::MAX * factor,
    {
        let (m, e) = self.parts();
        let ghost unit = pow2(1074) as int;
        proof {
            lemma_pow2_pos(1074);
            lemma2_to64();
            lemma2_to64_rest();
            assert(code_units(0) == 0);
            assert(self.units() == code_units(self.code()));
        }
        if e >= 1074 {
            let shift: u32 = e - 1074;
            let ghost f = pow2(shift as nat) as int;
            proof {
                lemma_pow2_pos(shift as nat);
                lemma_pow2_adds(shift as nat, 1074);
                assert(shift < 13) by (nonlinear_arith)
                    requires
                        e * HIDDEN + m < 1087 * HIDDEN,
                        m >= 0,
                        shift == e - 1074,
                ;
                lemma_pow2_increases(shift as nat, 12);
                Double::lemma_power(64);
                lemma_code_order(self.code(), 1087 * HIDDEN);
                lemma_pow2_adds(64, 1074);
                assert(m * (f * unit) == (m * f) * unit) by (nonlinear_arith);
                assert(m * f < 0x1_0000_0000_0000_0000) by (nonlinear_arith)
                    requires
                        (m * f) * unit < 0x1_0000_0000_0000_0000 * unit,
                        unit > 0,
                ;
                let whole = m * f;
                assert(m * f >= 0 && whole * factor <= u64::MAX * factor) by (nonlinear_arith)
                    requires
                        whole == m * f,
                        m >= 0,
                        f > 0,
                        whole <= u64::MAX,
                        factor >= 0,
                ;
                assert(u64::MAX * factor <= u64::MAX * u32::MAX) by (nonlinear_arith)
                    requires
                        0 <= factor <= u32::MAX,
                ;
                assert((whole * unit) * factor == unit * (whole * factor)) by (nonlinear_arith);
                lemma_exact_half_even(whole * factor, unit);
            }
            m as u128 * power(shift) * factor as u128
        } else {
            let shift: u32 = 1074 - e;
            let ghost w = pow2(shift as nat) as int;
            let ghost p = pow2(e as nat) as int;
            proof {
                lemma_pow2_pos(shift as nat);
                lemma_pow2_pos(e as nat);
                lemma_pow2_adds(shift as nat, e as nat);
                let n = m * factor;
                assert(0 <= m * factor <= (2 * HIDDEN - 1) * u32::MAX) by (nonlinear_arith)
                    requires
                        0 <= m < 2 * HIDDEN,
                        0 <= factor <= u32::MAX,
                ;
                assert((m * p) * factor == (m * factor) * p) by (nonlinear_arith);
                lemma_scaled_half_even(n, w, p);
            }
            let n: u128 = m as u128 * factor as u128;
            if shift >= 100 {
                proof {
                    lemma_pow2_increases(100, shift as nat);
                    lemma_pow2_adds(50, 50);
                    assert(n as int / w == 0 && n as int % w == n) by (nonlinear_arith)
                        requires
                            0 <= n < w,
                    ;
                    assert(0 <= u64::MAX * factor) by (nonlinear_arith)
                        requires
                            factor >= 0,
                    ;
                }
                return 0;
            }
            let width = power(shift);
            let floor: u128 = n / width;
            let rest: u128 = n % width;
            proof {
                lemma_pow2_increases(1, shift as nat);
                lemma_pow2_increases(shift as nat, 99);
                lemma_pow2_increases(99, 100);
                lemma_pow2_adds(50, 50);
                assert(2 * floor + 1 <= n + 1 && (width >= 2)) by (nonlinear_arith)
                    requires
                        floor == n as int / width as int,
                        width >= 2,
                        n >= 0,
                ;
                assert(n <= (2 * HIDDEN - 1) * factor) by (nonlinear_arith)
                    requires
                        n == m * factor,
                        0 <= m < 2 * HIDDEN,
                        factor >= 0,
                ;
                if factor >= 1 {
                    assert((2 * HIDDEN - 1) * factor + 1 <= u64::MAX * factor) by (nonlinear_arith)
                        requires
                            factor >= 1,
                    ;
                } else {
                    assert(n == 0 && floor == 0 && rest == 0) by (nonlinear_arith)
                        requires
                            n == m * factor,
                            factor == 0,
                            floor == n as int / width as int,
                            rest == n as int % width as int,
                            width >= 2,
                    ;
                }
            }
            if 2 * rest < width || (2 * rest == width && floor % 2 == 0) {
                floor
            } else {
                floor + 1
            }
        }
    }

    /// The integer nearest to a nonnegative number, halves going up.
    pub open spec fn nearest_integer(self) -> int {
        (2 * self.units() + pow2(1074)) / (2 * pow2(1074) as int)
    }

    /// The nearest integer, halves away from zero, limited to what `u64` holds;
    /// zero for NaN.
    pub open spec fn rounded(self) -> u64 {
        if self.nan() || self.negative() {
            0
        } else if self.infinite() || self.nearest_integer() > u64::MAX {
            u64::MAX
        } else {
            self.nearest_integer() as u64
        }
    }

    pub fn round_to_u64(self) -> (result: u64)
        ensures
            result == self.rounded(),
    {
        if self.is_nan() || self.sign() {
            return 0;
        }
        if !self.is_finite() {
            return u64::MAX;
        }
        let (m, e) = self.parts();
        let ghost unit = pow2(1074) as int;
        proof {
            lemma_pow2_pos(1074);
            lemma2_to64();
            lemma2_to64_rest();
        }
        if e >= 1074 {
            let shift: u32 = e - 1074;
            let ghost f = pow2(shift as nat) as int;
            proof {
                lemma_pow2_adds(shift as nat, 1074);
                lemma_pow2_pos(shift as nat);
                assert(2 * (m * (f * unit)) + unit == (2 * unit) * (m * f) + unit)
                    by (nonlinear_arith);
                lemma_half_division(m * f, unit);
            }
            if shift >= 64 {
                proof {
                    lemma_pow2_increases(64, shift as nat);
                    assert(e > 0);
                    assert(m * f > u64::MAX) by (nonlinear_arith)
                        requires
                            m >= HIDDEN,
                            f > u64::MAX,
                    ;
                }
                return u64::MAX;
            }
            let factor = power(shift);
            proof {
                lemma_pow2_increases(shift as nat, 63);
                assert(m * factor < 2 * HIDDEN * 0x8000_0000_0000_0000) by (nonlinear_arith)
                    requires
                        m < 2 * HIDDEN,
                        0 < factor <= 0x8000_0000_0000_0000,
                ;
            }
            let product: u128 = m as u128 * factor;
            if product > u64::MAX as u128 {
                u64::MAX
            } else {
                product as u64
            }
        } else {
            let shift: u32 = 1074 - e;
            proof {
                lemma_pow2_adds(shift as nat, e as nat);
                lemma_pow2_pos(shift as nat);
                lemma_pow2_pos(e as nat);
                lemma_scaled_half(
                    m as int,
                    pow2(shift as nat) as int,
                    pow2(e as nat) as int,
                    unit,
                );
            }
            if shift >= 55 {
                proof {
                    lemma_pow2_increases(55, shift as nat);
                    let w = pow2(shift as nat) as int;
                    assert((2 * m + w) / (2 * w) == 0) by (nonlinear_arith)
                        requires
                            0 <= 2 * m < w,
                    ;
                }
                return 0;
            }
            let width = power(shift);
            proof {
                lemma_pow2_increases(shift as nat, 54);
                let w = width as int;
                assert(0 <= (2 * m + w) / (2 * w) <= 2 * m + w) by (nonlinear_arith)
                    requires
                        m >= 0,
                        w > 0,
                ;
            }
            ((2 * m as u128 + width) / (2 * width)) as u64
        }
    }

    /// Numeric order of finite numbers is the order of their exact values.
    pub proof fn order_is_numeric(a: Double, b: Double)
        requires
            a.finite(),
            b.finite(),
        ensures
            a.less(b) <==> a.units() < b.units(),
            a.at_most(b) <==> a.units() <= b.units(),
            a.same(b) <==> a.units() == b.units(),
    {
        let x = a.code();
        let y = b.code();
        lemma_code_order(0, x);
        lemma_code_order(0, y);
        assert(code_units(0) == 0);
        if x <= y {
            lemma_code_order(x, y);
        } else {
            lemma_code_order(y, x);
        }
    }

    /// Addition does not depend on the order of its operands.
    pub proof fn sum_commutes(a: Double, b: Double)
        ensures
            a.infinite() && b.infinite() && a.negative() == b.negative() ==> a == b,
            a.sum(b) == b.sum(a),
    {
    }
}

/// A whole number is the nearest to itself.
proof fn lemma_exact_half_even(n: int, d: int)
    requires
        d > 0,
    ensures
        crate::pause::half_even(d * n, d) == n,
{
    vstd::arithmetic::div_mod::lemma_div_multiples_vanish(n, d);
    vstd::arithmetic::div_mod::lemma_mod_multiples_basic(n, d);
    assert(n * d == d * n) by (nonlinear_arith);
}

/// A common factor changes nothing.
proof fn lemma_scaled_half_even(n: int, d: int, p: int)
    requires
        n >= 0,
        d > 0,
        p > 0,
    ensures
        crate::pause::half_even(n * p, d * p) == crate::pause::half_even(n, d),
{
    let q = n / d;
    let r = n % d;
    vstd::arithmetic::div_mod::lemma_fundamental_div_mod(n, d);
    assert(n * p == q * (d * p) + r * p && 0 <= r * p < d * p) by (nonlinear_arith)
        requires
            n == d * q + r,
            0 <= r < d,
            p > 0,
    ;
    vstd::arithmetic::div_mod::lemma_fundamental_div_mod_converse(n * p, d * p, q, r * p);
    assert((2 * r < d) == (2 * (r * p) < d * p)) by (nonlinear_arith)
        requires
            p > 0,
    ;
    assert((2 * r == d) == (2 * (r * p) == d * p)) by (nonlinear_arith)
        requires
            p > 0,
    ;
}

proof fn lemma_half_division(x: int, unit: int)
    requires
        unit > 0,
    ensures
        ((2 * unit) * x + unit) / (2 * unit) == x,
{
    assert(((2 * unit) * x + unit) / (2 * unit) == x) by (nonlinear_arith)
        requires
            unit > 0,
    ;
}

proof fn lemma_scaled_half(m: int, w: int, p: int, unit: int)
    requires
        m >= 0,
        w > 0,
        p > 0,
        unit == w * p,
    ensures
        (2 * (m * p) + unit) / (2 * unit) == (2 * m + w) / (2 * w),
{
    let top = 2 * m + w;
    let bottom = 2 * w;
    assert(2 * (m * p) + unit == p * top) by (nonlinear_arith)
        requires
            unit == w * p,
            top == 2 * m + w,
    ;
    assert(2 * unit == p * bottom) by (nonlinear_arith)
        requires
            unit == w * p,
            bottom == 2 * w,
    ;
    vstd::arithmetic::div_mod::lemma_div_denominator(p * top, p, bottom);
    vstd::arithmetic::div_mod::lemma_div_multiples_vanish(top, p);
}

/// Every nonnegative quotient has a nearest code.
pub(crate) proof fn lemma_nearest_exists(n: int, d: int)
    requires
        n >= 0,
        d > 0,
    ensures
        is_nearest(n, d, nearest(n, d)),
{
    let code = lemma_floor(n, d, INFINITE as int);
    if code == INFINITE {
        lemma_code_step(INFINITE - 1);
        let v = code_units(INFINITE as int);
        let w = code_units(INFINITE - 1);
        assert(2 * n > d * (w + v)) by (nonlinear_arith)
            requires
                d > 0,
                n >= d * v,
                w < v,
        ;
        assert(is_nearest(n, d, code));
    } else {
        let mid = d * (code_units(code) + code_units(code + 1));
        let up = 2 * n > mid || (2 * n == mid && code % 2 == 1);
        lemma_nearest_between(n, d, code, up);
    }
}

/// The last code up to `top` whose value is at most `n / d`.
proof fn lemma_floor(n: int, d: int, top: int) -> (code: int)
    requires
        n >= 0,
        d > 0,
        0 <= top <= INFINITE,
        top < INFINITE ==> n < d * code_units(top + 1),
    ensures
        0 <= code <= top,
        d * code_units(code) <= n,
        code < INFINITE ==> n < d * code_units(code + 1),
    decreases top,
{
    if top == 0 {
        assert(code_units(0) == 0);
        assert(d * 0 == 0) by (nonlinear_arith);
        0
    } else if d * code_units(top) <= n {
        top
    } else {
        lemma_floor(n, d, top - 1)
    }
}

/// Rounding keeps order.
pub(crate) proof fn lemma_nearest_monotone(n1: int, d1: int, n2: int, d2: int)
    requires
        n1 >= 0,
        n2 >= 0,
        d1 > 0,
        d2 > 0,
        n1 * d2 <= n2 * d1,
    ensures
        0 <= nearest(n1, d1) <= nearest(n2, d2) <= INFINITE,
{
    lemma_nearest_exists(n1, d1);
    lemma_nearest_exists(n2, d2);
    let a = nearest(n1, d1);
    let b = nearest(n2, d2);
    if a > b {
        let high = code_units(b) + code_units(b + 1);
        let low = code_units(a - 1) + code_units(a);
        lemma_code_order(b, a - 1);
        lemma_code_order(b + 1, a);
        assert((2 * n1) * d2 >= (d1 * low) * d2) by (nonlinear_arith)
            requires
                2 * n1 >= d1 * low,
                d2 > 0,
        ;
        assert((2 * n2) * d1 <= (d2 * high) * d1) by (nonlinear_arith)
            requires
                2 * n2 <= d2 * high,
                d1 > 0,
        ;
        assert((d1 * low) * d2 >= (d2 * high) * d1) by (nonlinear_arith)
            requires
                low >= high,
                d1 > 0,
                d2 > 0,
        ;
        assert((2 * n1) * d2 == 2 * (n1 * d2)) by (nonlinear_arith);
        assert((2 * n2) * d1 == 2 * (n2 * d1)) by (nonlinear_arith);
        if low > high {
            assert((d1 * low) * d2 > (d2 * high) * d1) by (nonlinear_arith)
                requires
                    low > high,
                    d1 > 0,
                    d2 > 0,
            ;
            assert(false);
        }
        if 2 * n1 > d1 * low {
            assert((2 * n1) * d2 > (d1 * low) * d2) by (nonlinear_arith)
                requires
                    2 * n1 > d1 * low,
                    d2 > 0,
            ;
            assert(false);
        }
        if 2 * n2 < d2 * high {
            assert((2 * n2) * d1 < (d2 * high) * d1) by (nonlinear_arith)
                requires
                    2 * n2 < d2 * high,
                    d1 > 0,
            ;
            assert(false);
        }
        if a > b + 1 {
            lemma_code_order(b, a - 1);
        }
    }
}

impl Double {
    /// A nonnegative number divided by a larger positive one gives no more.
    pub proof fn quotient_decreases(x: Double, a: Double, b: Double)
        requires
            x.finite(),
            !x.negative(),
            a.finite(),
            b.finite(),
            (Double { bits: 0 }).less(a),
            a.at_most(b),
        ensures
            x.quotient(b).at_most(x.quotient(a)),
            x.quotient(a).finite() ==> x.quotient(b).finite(),
    {
        lemma_code_order(0, x.code());
        lemma_code_order(0, a.code());
        lemma_code_order(a.code(), b.code());
        lemma_pow2_pos(1074);
        let exact = code_units(x.code()) * pow2(1074);
        let da = code_units(a.code());
        let db = code_units(b.code());
        assert(code_units(0) == 0);
        assert(exact >= 0) by (nonlinear_arith)
            requires
                exact == code_units(x.code()) * pow2(1074),
                code_units(x.code()) >= 0,
        ;
        assert(exact * da <= exact * db) by (nonlinear_arith)
            requires
                exact >= 0,
                da <= db,
        ;
        lemma_nearest_monotone(exact, db, exact, da);
    }

    /// Sums and products of finite numbers are numbers.
    #[verifier::spinoff_prover]
    #[verifier::rlimit(60)]
    pub proof fn finite_operations(a: Double, b: Double)
        requires
            a.finite(),
            b.finite(),
        ensures
            !a.sum(b).nan(),
            !a.difference(b).nan(),
            !a.product(b).nan(),
    {
        lemma_code_order(0, a.code());
        lemma_code_order(0, b.code());
        let exact = a.units() + b.units();
        let apart = a.units() - b.units();
        lemma_nearest_exists(if exact < 0 { -exact } else { exact }, 1);
        lemma_nearest_exists(if apart < 0 { -apart } else { apart }, 1);
        lemma_pow2_pos(1074);
        let area = code_units(a.code()) * code_units(b.code());
        assert(area >= 0) by (nonlinear_arith)
            requires
                area == code_units(a.code()) * code_units(b.code()),
                code_units(a.code()) >= 0,
                code_units(b.code()) >= 0,
        ;
        lemma_nearest_exists(area, pow2(1074) as int);
        assert(b.negated().code() == b.code());
        assert(b.negated().units() == -b.units());
    }

    /// Adding a nonnegative number never gives less.
    pub proof fn sum_grows(a: Double, b: Double)
        requires
            a.finite(),
            !b.nan(),
            (Double { bits: 0 }).at_most(b),
        ensures
            a.at_most(a.sum(b)),
    {
        lemma_code_order(0, a.code());
        lemma_code_order(0, b.code());
        assert(code_units(0) == 0);
        if b.finite() {
            let exact = a.units() + b.units();
            if exact > 0 {
                lemma_nearest_exists(exact, 1);
                if !a.negative() {
                    lemma_nearest_exact(a.units(), 1, a.code());
                    lemma_nearest_is(a.units(), 1, a.code());
                    lemma_nearest_monotone(a.units(), 1, exact, 1);
                }
            } else if exact < 0 {
                lemma_nearest_exact(-a.units(), 1, a.code());
                lemma_nearest_is(-a.units(), 1, a.code());
                lemma_nearest_monotone(-exact, 1, -a.units(), 1);
            }
        }
    }

    /// No time is no part of any span.
    pub proof fn no_time_is_no_part(now: Double, span: Double)
        requires
            now.finite(),
            span.finite(),
            (Double { bits: 0 }).less(span),
        ensures
            now.difference(now).quotient(span) == (Double { bits: 0 }),
    {
        assert(now.negated().code() == now.code());
        assert(now.negated().units() == -now.units());
        assert(now.difference(now) == Double::signed(false, 0));
        lemma_code_order(0, span.code());
        assert(code_units(0) == 0);
        let d = code_units(span.code());
        assert(0 * pow2(1074) == 0 && d * 0 == 0) by (nonlinear_arith);
        lemma_nearest_exact(0, d, 0);
        lemma_nearest_is(0, d, 0);
    }

    /// Going no part of the way between numbers that are not negative changes
    /// nothing.
    pub proof fn no_step_stays(from: Double, to: Double)
        requires
            from.finite(),
            to.finite(),
            (Double { bits: 0 }).at_most(from),
            (Double { bits: 0 }).at_most(to),
        ensures
            ({
                let reached = from.sum((Double { bits: 0 }).product(to.difference(from)));
                &&& reached.finite()
                &&& reached.same(from)
                &&& from.code() != 0 ==> reached == from
            }),
    {
        lemma_code_order(0, from.code());
        lemma_code_order(0, to.code());
        assert(code_units(0) == 0);
        assert(from.negated().code() == from.code());
        assert(from.negated().units() == -from.units());
        let apart = to.difference(from);
        let exact = to.units() - from.units();
        let size = if exact < 0 {
            -exact
        } else {
            exact
        };
        let larger = if exact < 0 {
            from
        } else {
            to
        };
        lemma_nearest_exact(larger.units(), 1, larger.code());
        lemma_nearest_is(larger.units(), 1, larger.code());
        lemma_nearest_monotone(size, 1, larger.units(), 1);
        assert(apart.finite());
        lemma_pow2_pos(1074);
        let area = code_units(0) * code_units(apart.code());
        assert(area == 0 && pow2(1074) as int * 0 == 0) by (nonlinear_arith)
            requires
                area == code_units(0) * code_units(apart.code()),
                code_units(0) == 0,
        ;
        lemma_nearest_exact(0, pow2(1074) as int, 0);
        lemma_nearest_is(0, pow2(1074) as int, 0);
        let step = (Double { bits: 0 }).product(apart);
        assert(step.code() == 0);
        lemma_nearest_exact(from.units(), 1, from.code());
        lemma_nearest_is(from.units(), 1, from.code());
    }
}

/// Exact value of a power of two.
pub(crate) proof fn lemma_binade(k: int)
    requires
        0 <= k,
    ensures
        code_units((k + 1) * HIDDEN) == pow2((k + 52) as nat),
{
    lemma2_to64();
    lemma2_to64_rest();
    lemma_code_of(HIDDEN as int, k);
    lemma_pow2_adds(52, k as nat);
    assert(k * HIDDEN + HIDDEN == (k + 1) * HIDDEN) by (nonlinear_arith);
}

/// Numbers below a power of two lie close together.
pub(crate) proof fn lemma_spacing(code: int, top: int)
    requires
        2 <= top,
        0 <= code < top * HIDDEN,
    ensures
        code_units(code + 1) - code_units(code) <= pow2((top - 2) as nat),
{
    let e = code / HIDDEN as int;
    let f = code % HIDDEN as int;
    lemma_pow2_pos((top - 2) as nat);
    vstd::arithmetic::div_mod::lemma_fundamental_div_mod(code, HIDDEN as int);
    assert(0 <= e <= top - 1) by (nonlinear_arith)
        requires
            code == HIDDEN * e + f,
            0 <= f < HIDDEN,
            0 <= code < top * HIDDEN,
    ;
    if e == 0 {
        lemma_code_of(f, 0);
        lemma2_to64();
    } else {
        lemma_code_of(HIDDEN + f, e - 1);
        assert((e - 1) * HIDDEN + HIDDEN + f == code) by (nonlinear_arith)
            requires
                code == HIDDEN * e + f,
        ;
        lemma_pow2_increases((e - 1) as nat, (top - 2) as nat);
        let p = pow2((e - 1) as nat) as int;
        let q = HIDDEN + f;
        assert((q + 1) * p - q * p == p) by (nonlinear_arith);
    }
}

/// Values up to one that are further apart than the spacing round to different
/// numbers.
proof fn lemma_far_apart(n1: int, n2: int)
    requires
        0 <= n1,
        n1 + pow2(1021) < n2 <= pow2(1074),
    ensures
        0 <= nearest(n1, 1) < nearest(n2, 1) <= 1023 * HIDDEN,
{
    let one = 1023 * HIDDEN;
    lemma_binade(1022);
    lemma_pow2_pos(1021);
    lemma_nearest_exact(pow2(1074) as int, 1, one);
    lemma_nearest_is(pow2(1074) as int, 1, one);
    lemma_nearest_monotone(n1, 1, n2, 1);
    lemma_nearest_monotone(n2, 1, pow2(1074) as int, 1);
    let c = nearest(n1, 1);
    let b = nearest(n2, 1);
    lemma_nearest_exists(n1, 1);
    lemma_nearest_exists(n2, 1);
    if c == b {
        if c < one {
            lemma_spacing(c, 1023);
        } else {
            lemma_spacing(one - 1, 1023);
        }
        if c > 0 {
            lemma_spacing(c - 1, 1023);
        }
        if c == one {
            assert(2 * n1 >= code_units(one - 1) + code_units(one));
        }
    }
}

/// Remainders of the exact values come from those of the significands, once both
/// have one exponent.
proof fn lemma_common_scale(m1: int, m2: int, e: nat)
    requires
        0 <= m1,
        0 < m2,
    ensures
        m2 * pow2(e) > 0,
        (m1 * pow2(e)) % (m2 * pow2(e)) == (m1 % m2) * pow2(e),
{
    lemma_pow2_pos(e);
    let p = pow2(e) as int;
    vstd::arithmetic::div_mod::lemma_truncate_middle(m1, p, m2);
    assert(p * m1 == m1 * p) by (nonlinear_arith);
    assert(p * m2 == m2 * p) by (nonlinear_arith);
    assert(p * (m1 % m2) == (m1 % m2) * p) by (nonlinear_arith);
}

/// Remainder of `m1 * 2^distance` by `m2`.
fn shifted_remainder(m1: u64, distance: u32, m2: u64) -> (rest: u64)
    requires
        0 < m2 < 2 * HIDDEN,
    ensures
        rest == (m1 * pow2(distance as nat)) % m2 as int,
        rest < m2,
{
    let mut rest: u64 = m1 % m2;
    let mut i: u32 = 0;
    proof {
        lemma2_to64();
    }
    while i < distance
        invariant
            i <= distance,
            0 < m2 < 2 * HIDDEN,
            rest < m2,
            rest == (m1 * pow2(i as nat)) % m2 as int,
        decreases distance - i,
    {
        proof {
            let before = m1 * pow2(i as nat);
            lemma_pow2_unfold((i + 1) as nat);
            assert(m1 * pow2((i + 1) as nat) == before * 2) by (nonlinear_arith)
                requires
                    before == m1 * pow2(i as nat),
                    pow2((i + 1) as nat) == 2 * pow2(i as nat),
            ;
            vstd::arithmetic::div_mod::lemma_mul_mod_noop_left(before, 2, m2 as int);
        }
        rest = (2 * rest) % m2;
        i += 1;
    }
    rest
}

impl Double {
    /// What is left of `self` after taking away `other` as often as it fits, with
    /// the sign of `self`.
    pub open spec fn remainder(self, other: Double) -> Double {
        if self.nan() || other.nan() || self.infinite() || other.code() == 0 {
            Double::quiet_nan()
        } else if other.infinite() {
            self
        } else {
            Double::signed(
                self.negative(),
                nearest(code_units(self.code()) % code_units(other.code()), 1),
            )
        }
    }

    pub fn rem(self, other: Double) -> (result: Double)
        ensures
            result == self.remainder(other),
    {
        if self.is_nan() || other.is_nan() || !self.is_finite() || other.magnitude_code() == 0 {
            return Double { bits: QUIET_NAN };
        }
        if !other.is_finite() {
            return self;
        }
        let (m1, e1) = self.parts();
        let (m2, e2) = other.parts();
        let rest: u64;
        let exponent: u32;
        proof {
            lemma2_to64();
            lemma2_to64_rest();
        }
        if e1 >= e2 {
            rest = shifted_remainder(m1, e1 - e2, m2);
            exponent = e2;
            proof {
                let p = pow2((e1 - e2) as nat) as int;
                lemma_pow2_adds((e1 - e2) as nat, e2 as nat);
                assert((m1 * p) * pow2(e2 as nat) == m1 * pow2(e1 as nat)) by (nonlinear_arith)
                    requires
                        p * pow2(e2 as nat) == pow2(e1 as nat),
                ;
                assert(m1 * p >= 0) by (nonlinear_arith)
                    requires
                        m1 >= 0,
                        p >= 0,
                ;
                lemma_common_scale(m1 * p, m2 as int, e2 as nat);
            }
        } else {
            exponent = e1;
            let distance: u32 = e2 - e1;
            let ghost whole = m2 * pow2(distance as nat);
            proof {
                lemma_pow2_pos(distance as nat);
                assert(whole > 0) by (nonlinear_arith)
                    requires
                        whole == m2 * pow2(distance as nat),
                        m2 > 0,
                        pow2(distance as nat) > 0,
                ;
                lemma_pow2_adds(distance as nat, e1 as nat);
                assert(whole * pow2(e1 as nat) == m2 * pow2(e2 as nat)) by (nonlinear_arith)
                    requires
                        whole == m2 * pow2(distance as nat),
                        pow2(distance as nat) * pow2(e1 as nat) == pow2(e2 as nat),
                ;
                lemma_common_scale(m1 as int, whole, e1 as nat);
            }
            if distance >= 53 {
                rest = m1;
                proof {
                    lemma_pow2_increases(53, distance as nat);
                    assert(whole >= pow2(distance as nat)) by (nonlinear_arith)
                        requires
                            whole == m2 * pow2(distance as nat),
                            m2 > 0,
                    ;
                    vstd::arithmetic::div_mod::lemma_small_mod(m1 as nat, whole as nat);
                }
            } else {
                let factor = power(distance);
                proof {
                    lemma_pow2_increases(distance as nat, 53);
                    assert(m2 * factor < 4 * HIDDEN * HIDDEN) by (nonlinear_arith)
                        requires
                            0 < m2 < 2 * HIDDEN,
                            0 < factor <= 2 * HIDDEN,
                    ;
                }
                let left: u128 = m1 as u128 % (m2 as u128 * factor);
                proof {
                    vstd::arithmetic::div_mod::lemma_mod_decreases(m1 as nat, whole as nat);
                }
                rest = left as u64;
            }
        }
        let ghost exact = code_units(self.code()) % code_units(other.code());
        assert(exact == rest * pow2(exponent as nat));
        if rest == 0 {
            proof {
                assert(0 * pow2(exponent as nat) == 0) by (nonlinear_arith);
                lemma_nearest_zero(1);
            }
            return Double::with_sign(self.sign(), 0);
        }
        proof {
            lemma_scaled_exact_positive(exact, rest as int, exponent as int);
            lemma_pow2_increases(64, 125);
        }
        let code = round_code(rest as u128, exponent as i32, false, Ghost(exact), Ghost(1));
        Double::with_sign(self.sign(), code)
    }

    /// Sums in `0.0..=1.0` of clearly different exact values differ.
    pub proof fn sums_stay_apart(a: Double, b: Double, c: Double, d: Double)
        requires
            a.finite(),
            b.finite(),
            c.finite(),
            d.finite(),
            0 <= a.units() + b.units(),
            a.units() + b.units() + pow2(1021) < c.units() + d.units() <= pow2(1074),
        ensures
            a.sum(b).less(c.sum(d)),
            (Double { bits: 0 }).at_most(a.sum(b)),
            c.sum(d).at_most(Double { bits: 0x3ff0_0000_0000_0000 }),
            a.sum(b).finite(),
            c.sum(d).finite(),
    {
        lemma_pow2_pos(1021);
        lemma_far_apart(a.units() + b.units(), c.units() + d.units());
    }

    /// Exact values of some numbers, in the unit of all.
    pub proof fn known_units()
        ensures
            (Double { bits: 0 }).units() == 0,
            (Double { bits: 0x3ff0_0000_0000_0000 }).units() == pow2(1074),
            (Double { bits: 0x3fe0_0000_0000_0000 }).units() == pow2(1073),
            (Double { bits: 0x3fd0_0000_0000_0000 }).units() == pow2(1072),
            (Double { bits: 0x3f80_0000_0000_0000 }).units() == pow2(1067),
            pow2(1074) == 2 * pow2(1073),
            pow2(1073) == 2 * pow2(1072),
            4 * pow2(1021) < pow2(1067),
            pow2(1022) == 2 * pow2(1021),
    {
        lemma_binade(1022);
        lemma_binade(1021);
        lemma_binade(1020);
        lemma_binade(1015);
        lemma_pow2_unfold(1074);
        lemma_pow2_unfold(1073);
        lemma_pow2_unfold(1023);
        lemma_pow2_unfold(1022);
        lemma_pow2_strictly_increases(1023, 1067);
        assert(code_units(0) == 0);
    }

    /// A sum whose exact value is below zero is below zero.
    pub proof fn sums_keep_their_sign(a: Double, b: Double)
        requires
            a.finite(),
            b.finite(),
            a.units() + b.units() < 0,
        ensures
            a.sum(b).less(Double { bits: 0 }),
    {
        let size = -(a.units() + b.units());
        lemma_nearest_exact(1, 1, 1);
        lemma_nearest_is(1, 1, 1);
        lemma_nearest_monotone(1, 1, size, 1);
        Double::finite_operations(a, b);
    }

    /// A sum whose exact value is at least one is at least one.
    pub proof fn sums_reach_one(a: Double, b: Double)
        requires
            a.finite(),
            b.finite(),
            pow2(1074) <= a.units() + b.units(),
        ensures
            (Double { bits: 0x3ff0_0000_0000_0000 }).at_most(a.sum(b)),
            pow2(1074) + pow2(1022) <= a.units() + b.units() ==> (Double {
                bits: 0x3ff0_0000_0000_0000,
            }).less(a.sum(b)),
    {
        let exact = a.units() + b.units();
        let one = 1023 * HIDDEN;
        lemma_pow2_pos(1074);
        lemma_binade(1022);
        lemma_nearest_exact(pow2(1074) as int, 1, one);
        lemma_nearest_is(pow2(1074) as int, 1, one);
        lemma_nearest_monotone(pow2(1074) as int, 1, exact, 1);
        Double::finite_operations(a, b);
        lemma_code_of(HIDDEN as int, 1022);
        lemma2_to64_rest();
        lemma_pow2_adds(52, 1022);
        let p = pow2(1022) as int;
        assert((HIDDEN + 1) * p == HIDDEN * p + p) by (nonlinear_arith);
        let above = (pow2(1074) + pow2(1022)) as int;
        if above <= exact {
            lemma_nearest_exact(above, 1, one + 1);
            lemma_nearest_is(above, 1, one + 1);
            lemma_nearest_monotone(above, 1, exact, 1);
        }
    }

    /// Adding zero changes nothing.
    pub proof fn plus_zero_is_same(a: Double)
        requires
            a.finite(),
        ensures
            a.sum(Double { bits: 0 }).same(a),
    {
        assert(code_units(0) == 0);
        lemma_code_order(0, a.code());
        let size = code_units(a.code());
        lemma_nearest_exact(size, 1, a.code());
        lemma_nearest_is(size, 1, a.code());
    }

    /// Doubling is exact.
    pub proof fn doubling_is_exact(a: Double)
        requires
            a.finite(),
            HIDDEN <= a.code() < 2000 * HIDDEN,
        ensures
            (Double { bits: 0x4000_0000_0000_0000 }).product(a).finite(),
            (Double { bits: 0x4000_0000_0000_0000 }).product(a).units() == 2 * a.units(),
    {
        let code = a.code();
        let e = code / HIDDEN as int;
        let f = code % HIDDEN as int;
        lemma_pow2_pos(1074);
        lemma_binade(1023);
        vstd::arithmetic::div_mod::lemma_fundamental_div_mod(code, HIDDEN as int);
        lemma_code_of(HIDDEN + f, e - 1);
        lemma_code_of(HIDDEN + f, e);
        assert((e - 1) * HIDDEN + HIDDEN + f == code) by (nonlinear_arith)
            requires
                code == HIDDEN * e + f,
        ;
        assert(e * HIDDEN + HIDDEN + f == code + HIDDEN) by (nonlinear_arith)
            requires
                code == HIDDEN * e + f,
        ;
        lemma_pow2_unfold(e as nat);
        lemma_pow2_unfold(1075);
        let q = HIDDEN + f;
        let p = pow2((e - 1) as nat) as int;
        let unit = pow2(1074) as int;
        assert(q * (2 * p) == 2 * (q * p)) by (nonlinear_arith);
        let size = code_units(code);
        assert((2 * unit) * size == unit * (2 * size)) by (nonlinear_arith);
        lemma_nearest_exact((2 * unit) * size, unit, code + HIDDEN);
        lemma_nearest_is((2 * unit) * size, unit, code + HIDDEN);
    }

    /// The two zeros add to nearly the same: only the sign of a zero may differ.
    pub proof fn zeros_sum_alike(a: Double, b: Double, other: Double)
        requires
            a.code() == 0,
            b.code() == 0,
            other.finite(),
        ensures
            a.sum(other) == b.sum(other) || (a.sum(other).code() == 0 && b.sum(other).code() == 0),
            a.sum(other).finite(),
            b.sum(other).finite(),
    {
        assert(code_units(0) == 0);
        if other.units() != 0 {
            let size = code_units(other.code());
            lemma_nearest_exact(size, 1, other.code());
            lemma_nearest_is(size, 1, other.code());
        }
    }

    /// Where a sum stands in the order.
    pub(crate) proof fn lemma_sum_place(a: Double, b: Double)
        requires
            a.finite(),
            b.finite(),
        ensures
            ({
                let exact = a.units() + b.units();
                &&& !a.sum(b).nan()
                &&& exact == 0 ==> a.sum(b).code() == 0
                &&& exact < 0 ==> a.sum(b).negative() && a.sum(b).code() == nearest(-exact, 1)
                &&& exact > 0 ==> !a.sum(b).negative() && a.sum(b).code() == nearest(exact, 1)
            }),
    {
        let exact = a.units() + b.units();
        if exact < 0 {
            lemma_nearest_exists(-exact, 1);
        } else {
            lemma_nearest_exists(exact, 1);
        }
    }

    /// A larger exact sum rounds to no less.
    pub proof fn sums_keep_order(a: Double, b: Double, c: Double, d: Double)
        requires
            a.finite(),
            b.finite(),
            c.finite(),
            d.finite(),
            a.units() + b.units() <= c.units() + d.units(),
        ensures
            a.sum(b).at_most(c.sum(d)),
    {
        let x = a.units() + b.units();
        let y = c.units() + d.units();
        Double::lemma_sum_place(a, b);
        Double::lemma_sum_place(c, d);
        if x > 0 {
            lemma_nearest_monotone(x, 1, y, 1);
        } else if y < 0 {
            lemma_nearest_monotone(-y, 1, -x, 1);
        }
    }

    /// A larger factor gives a product of no smaller size and of the same sign.
    pub proof fn products_keep_order(a: Double, f: Double, g: Double)
        requires
            a.finite(),
            f.finite(),
            g.finite(),
            !f.negative(),
            !g.negative(),
            f.at_most(g),
        ensures
            a.product(f).code() <= a.product(g).code() <= INFINITE,
            a.product(f).negative() == a.negative(),
            a.product(g).negative() == a.negative(),
    {
        lemma_code_order(0, a.code());
        lemma_code_order(0, f.code());
        lemma_code_order(f.code(), g.code());
        lemma_pow2_pos(1074);
        let unit = pow2(1074) as int;
        let size = code_units(a.code());
        let x = size * code_units(f.code());
        let y = size * code_units(g.code());
        assert(0 <= x <= y && x * unit <= y * unit) by (nonlinear_arith)
            requires
                x == size * code_units(f.code()),
                y == size * code_units(g.code()),
                0 <= size,
                0 <= code_units(f.code()) <= code_units(g.code()),
                0 < unit,
        ;
        lemma_nearest_monotone(x, unit, y, unit);
    }

    /// Once a number is that number.
    pub proof fn once_is_same(a: Double)
        requires
            a.finite(),
        ensures
            a.product(Double { bits: 0x3ff0_0000_0000_0000 }) == a,
    {
        Double::known_units();
        lemma_pow2_pos(1074);
        let unit = pow2(1074) as int;
        let size = code_units(a.code());
        assert(size * unit == unit * size) by (nonlinear_arith);
        lemma_nearest_exact(size * unit, unit, a.code());
        lemma_nearest_is(size * unit, unit, a.code());
    }

    /// The exact difference of nonnegative numbers, and what it rounds to.
    #[verifier::spinoff_prover]
    #[verifier::rlimit(40)]
    pub(crate) proof fn lemma_gap(from: Double, to: Double)
        requires
            from.finite(),
            to.finite(),
            (Double { bits: 0 }).at_most(to),
            to.at_most(from),
        ensures
            ({
                let size = code_units(from.code()) - code_units(to.code());
                &&& 0 <= size <= code_units(from.code())
                &&& from.units() == code_units(from.code())
                &&& to.units() == code_units(to.code())
                &&& 0 <= nearest(size, 1) <= from.code()
                &&& is_nearest(size, 1, nearest(size, 1))
                &&& from.difference(to).finite()
                &&& from.difference(to).units() == code_units(nearest(size, 1))
                &&& to.difference(from).finite()
                &&& to.difference(from).units() == -code_units(nearest(size, 1))
                &&& size != 0 ==> to.difference(from).negative()
                &&& size != 0 ==> !from.difference(to).negative()
                &&& from.difference(to).code() == nearest(size, 1)
                &&& to.difference(from).code() == nearest(size, 1)
            }),
    {
        assert(code_units(0) == 0);
        lemma_code_order(0, to.code());
        lemma_code_order(to.code(), from.code());
        assert(from.negated().code() == from.code());
        assert(from.negated().units() == -from.units());
        assert(to.negated().code() == to.code());
        assert(to.negated().units() == -to.units());
        let size = code_units(from.code()) - code_units(to.code());
        lemma_nearest_exact(code_units(from.code()), 1, from.code());
        lemma_nearest_is(code_units(from.code()), 1, from.code());
        lemma_nearest_monotone(size, 1, code_units(from.code()), 1);
        lemma_nearest_exists(size, 1);
        lemma_nearest_zero(1);
        Double::lemma_sum_place(from, to.negated());
        Double::lemma_sum_place(to, from.negated());
        assert(from.difference(to) == from.sum(to.negated()));
        assert(to.difference(from) == to.sum(from.negated()));
    }

    /// Part of the way up between two numbers in `0.0..=1.0` stays there.
    #[verifier::spinoff_prover]
    #[verifier::rlimit(40)]
    pub proof fn ways_stay_within_one(low: Double, high: Double, factor: Double)
        requires
            low.finite(),
            high.finite(),
            factor.finite(),
            (Double { bits: 0 }).at_most(low),
            low.at_most(high),
            high.at_most(Double { bits: 0x3ff0_0000_0000_0000 }),
            !factor.negative(),
            factor.at_most(Double { bits: 0x3ff0_0000_0000_0000 }),
        ensures
            ({
                let reached = low.sum(high.difference(low).product(factor));
                &&& reached.finite()
                &&& low.at_most(reached)
                &&& reached.at_most(Double { bits: 0x3ff0_0000_0000_0000 })
            }),
    {
        let top = 1023 * HIDDEN;
        let gap = high.difference(low);
        let step = gap.product(factor);
        let size = code_units(high.code()) - code_units(low.code());
        let c = nearest(size, 1);
        let most = (pow2(1074) + pow2(1021)) as int;
        Double::known_units();
        Double::lemma_gap(high, low);
        Double::once_is_same(gap);
        Double::products_keep_order(gap, factor, Double { bits: 0x3ff0_0000_0000_0000 });
        assert(code_units(0) == 0);
        lemma_code_order(0, step.code());
        lemma_code_order(step.code(), gap.code());
        lemma_code_order(high.code(), top);
        if c > 0 {
            lemma_spacing(c - 1, 1023);
        }
        lemma_pow2_pos(1021);
        assert(low.units() + step.units() <= most);
        assert(is_nearest(most, 1, top)) by {
            lemma_binade(1022);
            lemma_code_of(HIDDEN as int, 1022);
            lemma2_to64_rest();
            lemma_pow2_adds(52, 1022);
            let p = pow2(1022) as int;
            assert((HIDDEN + 1) * p == HIDDEN * p + p) by (nonlinear_arith);
            lemma_code_step(top - 1);
        }
        lemma_nearest_is(most, 1, top);
        let exact = low.units() + step.units();
        Double::lemma_sum_place(low, step);
        if exact > 0 {
            lemma_nearest_monotone(exact, 1, most, 1);
        }
        Double::sum_grows(low, step);
    }

    /// The further down between two nonnegative numbers, the less is reached.
    #[verifier::spinoff_prover]
    #[verifier::rlimit(40)]
    pub proof fn ways_down_keep_order(from: Double, to: Double, factor: Double)
        requires
            from.finite(),
            to.finite(),
            factor.finite(),
            (Double { bits: 0 }).at_most(to),
            to.at_most(from),
            !factor.negative(),
            factor.at_most(Double { bits: 0x3ff0_0000_0000_0000 }),
        ensures
            ({
                let gap = to.difference(from);
                let least = from.sum(gap.product(Double { bits: 0x3ff0_0000_0000_0000 }));
                let reached = from.sum(gap.product(factor));
                let most = from.sum(gap.product(Double { bits: 0 }));
                &&& least.at_most(reached)
                &&& reached.at_most(most)
                &&& most.same(from)
                &&& least == from.sum(gap)
                &&& gap.finite()
            }),
    {
        let one = Double { bits: 0x3ff0_0000_0000_0000 };
        let zero = Double { bits: 0 };
        let gap = to.difference(from);
        let step = gap.product(factor);
        let none = gap.product(zero);
        Double::lemma_gap(from, to);
        Double::once_is_same(gap);
        Double::products_keep_order(gap, factor, one);
        Double::products_keep_order(gap, zero, factor);
        assert(code_units(0) == 0);
        assert(none.code() == 0) by {
            lemma_pow2_pos(1074);
            assert(code_units(gap.code()) * 0 == 0) by (nonlinear_arith);
            lemma_nearest_zero(pow2(1074) as int);
        }
        lemma_code_order(0, step.code());
        lemma_code_order(step.code(), gap.code());
        Double::sums_keep_order(from, gap, from, step);
        Double::sums_keep_order(from, step, from, none);
        Double::plus_zero_is_same(from);
        Double::sums_keep_order(from, none, from, zero);
        Double::sums_keep_order(from, zero, from, none);
    }

    /// All the way down to a number of at least one, from no more than some
    /// million, no less than one half is reached.
    #[verifier::spinoff_prover]
    #[verifier::rlimit(40)]
    pub proof fn ways_down_stay_up(from: Double, to: Double)
        requires
            from.finite(),
            to.finite(),
            (Double { bits: 0x3ff0_0000_0000_0000 }).at_most(to),
            to.at_most(from),
            from.at_most(Double { bits: 0x4130_0000_0000_0000 }),
        ensures
            (Double { bits: 0x3fe0_0000_0000_0000 }).at_most(from.sum(to.difference(from))),
    {
        let gap = to.difference(from);
        let size = code_units(from.code()) - code_units(to.code());
        let c = nearest(size, 1);
        Double::known_units();
        Double::lemma_gap(from, to);
        lemma_code_order(1023 * HIDDEN, to.code());
        if c > 0 {
            lemma_spacing(c - 1, 1043);
        }
        lemma_pow2_increases(1041, 1073);
        lemma_pow2_pos(1041);
        assert(2 * code_units(c) <= 2 * size + pow2(1041));
        let half = Double { bits: 0x3fe0_0000_0000_0000 };
        let zero = Double { bits: 0 };
        Double::sums_keep_order(half, zero, from, gap);
        Double::plus_zero_is_same(half);
    }

    /// A positive number over another is not negative; only a positive number
    /// gives a positive quotient.
    pub proof fn positive_quotients(x: Double, a: Double)
        requires
            x.finite(),
            !x.negative(),
        ensures
            a.finite() && (Double { bits: 0 }).less(a) ==> (Double { bits: 0 }).at_most(
                x.quotient(a),
            ),
            x.quotient(a).finite() && (Double { bits: 0 }).less(x.quotient(a)) ==> a.finite()
                && (Double { bits: 0 }).less(a),
    {
        if a.finite() && a.code() != 0 {
            lemma_code_order(0, x.code());
            lemma_code_order(0, a.code());
            lemma_pow2_pos(1074);
            let exact = code_units(x.code()) * pow2(1074);
            assert(exact >= 0) by (nonlinear_arith)
                requires
                    exact == code_units(x.code()) * pow2(1074),
                    code_units(x.code()) >= 0,
            ;
            lemma_nearest_exists(exact, code_units(a.code()));
        }
    }

    /// The exact value of a power.
    proof fn lemma_power(k: int)
        requires
            -1022 <= k <= 1023,
        ensures
            code_units((1023 + k) * HIDDEN) == pow2((1074 + k) as nat),
            HIDDEN <= (1023 + k) * HIDDEN < INFINITE,
            pow2((1074 + k) as nat) > 0,
    {
        lemma_binade(1022 + k);
        lemma_pow2_pos((1074 + k) as nat);
        assert(HIDDEN <= (1023 + k) * HIDDEN <= 2046 * HIDDEN) by (nonlinear_arith)
            requires
                -1022 <= k <= 1023,
        ;
    }

    /// Whole numbers are numbers.
    pub proof fn counts_are_numbers(n: u64)
        ensures
            Double::of_nat(n as nat).finite(),
            !Double::of_nat(n as nat).negative(),
    {
        Double::lemma_power(64);
        lemma_pow2_adds(1074, 64);
        lemma_pow2_pos(1074);
        lemma2_to64();
        let unit = pow2(1074) as int;
        let exact = n * unit;
        let most = pow2(1138) as int;
        assert(0 <= exact <= unit * 0x1_0000_0000_0000_0000) by (nonlinear_arith)
            requires
                exact == n * unit,
                0 <= n < 0x1_0000_0000_0000_0000,
                0 < unit,
        ;
        lemma_nearest_exact(most, 1, 1087 * HIDDEN);
        lemma_nearest_is(most, 1, 1087 * HIDDEN);
        lemma_nearest_monotone(exact, 1, most, 1);
    }

    /// Nothing over a number is nothing.
    pub proof fn no_part(span: Double)
        requires
            span.finite(),
            (Double { bits: 0 }).less(span),
        ensures
            Double::of_nat(0) == (Double { bits: 0 }),
            Double::of_nat(0).quotient(span) == (Double { bits: 0 }),
    {
        assert(0 * pow2(1074) == 0) by (nonlinear_arith);
        lemma_nearest_zero(1);
        assert(code_units(0) == 0);
        lemma_code_order(0, span.code());
        lemma_nearest_zero(code_units(span.code()));
    }

    /// The size of a number, in units, is not negative.
    pub proof fn sizes_are_not_negative(a: Double)
        ensures
            code_units(a.code()) >= 0,
    {
        lemma_code_order(0, a.code());
        assert(code_units(0) == 0);
    }

    /// A positive number over itself is one, over one itself and over one half
    /// twice that.
    pub proof fn simple_quotients(a: Double)
        requires
            a.finite(),
            !a.negative(),
            HIDDEN <= a.code() < 2000 * HIDDEN,
        ensures
            a.quotient(a) == (Double { bits: 0x3ff0_0000_0000_0000 }),
            a.quotient(Double { bits: 0x3ff0_0000_0000_0000 }) == a,
            a.quotient(Double { bits: 0x3fe0_0000_0000_0000 }).finite(),
    {
        let code = a.code();
        let size = code_units(code);
        let unit = pow2(1074) as int;
        Double::known_units();
        lemma_pow2_pos(1074);
        lemma_pow2_pos(1073);
        assert(code_units(0) == 0);
        lemma_code_order(0, code);
        assert(size * unit == unit * size) by (nonlinear_arith);
        lemma_nearest_exact(size * unit, size, 1023 * HIDDEN);
        lemma_nearest_is(size * unit, size, 1023 * HIDDEN);
        lemma_nearest_exact(size * unit, unit, code);
        lemma_nearest_is(size * unit, unit, code);
        Double::doubling_is_exact(a);
        let twice = (Double { bits: 0x4000_0000_0000_0000 }).product(a);
        let half = pow2(1073) as int;
        assert(size * unit == half * (2 * size)) by (nonlinear_arith)
            requires
                unit == 2 * half,
        ;
        lemma_nearest_exact(size * unit, half, twice.code());
        lemma_nearest_is(size * unit, half, twice.code());
    }

    /// `self` moved by whole periods into the first of them.
    pub open spec fn wrapped(self, period: Double) -> Double {
        let rest = self.remainder(period);
        if rest.less(Double { bits: 0 }) {
            rest.sum(period.magnitude())
        } else {
            rest
        }
    }

    pub fn rem_euclid(self, period: Double) -> (result: Double)
        ensures
            result == self.wrapped(period),
    {
        let rest = self.rem(period);
        if rest.lt(Double::from_bits(0)) {
            rest.plus(period.abs())
        } else {
            rest
        }
    }
}

} // verus!
