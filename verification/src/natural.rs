//! Natural numbers of any size, as far as roots need them.
use vstd::arithmetic::power::pow;
use vstd::arithmetic::power2::{lemma2_to64, lemma2_to64_rest, lemma_pow2_adds, lemma_pow2_pos, pow2};
use vstd::prelude::*;

verus! {

/// What one limb counts.
pub open spec fn base() -> int {
    0x1_0000_0000_0000_0000
}

/// The number with these limbs, lowest first.
pub open spec fn value(limbs: Seq<u64>) -> int
    decreases limbs.len(),
{
    if limbs.len() == 0 {
        0
    } else {
        value(limbs.drop_last()) + limbs.last() * pow(base(), (limbs.len() - 1) as nat)
    }
}

proof fn lemma_pow_step(n: nat)
    ensures
        pow(base(), n) > 0,
        pow(base(), n + 1) == base() * pow(base(), n),
{
    vstd::arithmetic::power::lemma_pow_positive(base(), n);
    reveal_with_fuel(pow, 2);
}

proof fn lemma_value_bound(limbs: Seq<u64>)
    ensures
        0 <= value(limbs) < pow(base(), limbs.len()),
    decreases limbs.len(),
{
    if limbs.len() == 0 {
        reveal_with_fuel(pow, 1);
    } else {
        let n = (limbs.len() - 1) as nat;
        lemma_value_bound(limbs.drop_last());
        lemma_pow_step(n);
        let p = pow(base(), n);
        let l = limbs.last();
        assert(0 <= l * p <= (base() - 1) * p) by (nonlinear_arith)
            requires
                0 <= l <= base() - 1,
                p > 0,
        ;
        assert((base() - 1) * p == base() * p - p) by (nonlinear_arith);
    }
}

/// `limbs` times `factor`.
fn scaled(limbs: &Vec<u64>, factor: u64) -> (result: Vec<u64>)
    ensures
        value(result@) == value(limbs@) * factor,
{
    let mut result: Vec<u64> = Vec::new();
    let mut carry: u64 = 0;
    let mut i: usize = 0;
    proof {
        reveal_with_fuel(pow, 1);
        assert(limbs@.take(0) =~= Seq::<u64>::empty());
    }
    while i < limbs.len()
        invariant
            i <= limbs@.len(),
            result@.len() == i,
            value(result@) + carry * pow(base(), i as nat) == value(limbs@.take(i as int)) * factor,
        decreases limbs@.len() - i,
    {
        let l: u64 = limbs[i];
        assert(l * factor + carry <= 0xffff_ffff_ffff_ffff * 0xffff_ffff_ffff_ffff
            + 0xffff_ffff_ffff_ffff) by (nonlinear_arith)
            requires
                l <= 0xffff_ffff_ffff_ffff,
                factor <= 0xffff_ffff_ffff_ffff,
                carry <= 0xffff_ffff_ffff_ffff,
        ;
        let total: u128 = (l as u128) * (factor as u128) + (carry as u128);
        let low: u64 = (total % 0x1_0000_0000_0000_0000) as u64;
        let high: u64 = (total / 0x1_0000_0000_0000_0000) as u64;
        let ghost before = result@;
        let ghost p = pow(base(), i as nat);
        result.push(low);
        proof {
            lemma_pow_step(i as nat);
            assert(result@.drop_last() =~= before);
            assert(limbs@.take(i + 1).drop_last() =~= limbs@.take(i as int));
            let v = value(limbs@.take(i as int));
            let w = value(before);
            assert(l * factor + carry == low + base() * high);
            assert((v + l * p) * factor == v * factor + (l * factor) * p) by (nonlinear_arith);
            assert((l * factor) * p + carry * p == (low + base() * high) * p) by (nonlinear_arith)
                requires
                    l * factor + carry == low + base() * high,
            ;
            assert((low + base() * high) * p == low * p + high * (base() * p))
                by (nonlinear_arith);
        }
        carry = high;
        i = i + 1;
    }
    assert(limbs@.take(limbs@.len() as int) =~= limbs@);
    let ghost before = result@;
    result.push(carry);
    assert(result@.drop_last() =~= before);
    result
}

/// Adds zero limbs up to `length`.
fn padded(limbs: Vec<u64>, length: usize) -> (result: Vec<u64>)
    requires
        limbs@.len() <= length,
    ensures
        result@.len() == length,
        value(result@) == value(limbs@),
{
    let mut result = limbs;
    while result.len() < length
        invariant
            result@.len() <= length,
            value(result@) == value(limbs@),
        decreases length - result@.len(),
    {
        let ghost before = result@;
        result.push(0);
        assert(result@.drop_last() =~= before);
        assert(0 * pow(base(), before.len()) == 0);
    }
    result
}

/// Whether `a` is not greater than `b`.
fn not_greater(a: Vec<u64>, b: Vec<u64>) -> (result: bool)
    ensures
        result == (value(a@) <= value(b@)),
{
    let length: usize = if a.len() < b.len() {
        b.len()
    } else {
        a.len()
    };
    let left = padded(a, length);
    let right = padded(b, length);
    let mut i: usize = length;
    assert(left@.take(length as int) =~= left@);
    assert(right@.take(length as int) =~= right@);
    while i > 0
        invariant
            i <= length,
            left@.len() == length,
            value(left@) == value(a@),
            value(right@) == value(b@),
            right@.len() == length,
            value(left@) - value(right@) == value(left@.take(i as int)) - value(right@.take(i as int)),
        decreases i,
    {
        let x: u64 = left[i - 1];
        let y: u64 = right[i - 1];
        proof {
            let n = (i - 1) as nat;
            let p = pow(base(), n);
            lemma_pow_step(n);
            let u = left@.take(i as int);
            let v = right@.take(i as int);
            assert(u.drop_last() =~= left@.take(i - 1));
            assert(v.drop_last() =~= right@.take(i - 1));
            lemma_value_bound(left@.take(i - 1));
            lemma_value_bound(right@.take(i - 1));
            assert(x < y ==> x * p + p <= y * p) by (nonlinear_arith)
                requires
                    p > 0,
            ;
            assert(y < x ==> y * p + p <= x * p) by (nonlinear_arith)
                requires
                    p > 0,
            ;
        }
        if x < y {
            return true;
        }
        if y < x {
            return false;
        }
        i = i - 1;
    }
    true
}

/// `k` to the fifth, scaled, does not exceed `n` to the twelfth: `k / 2^61` is
/// not above `(n / 2^56)` to the power `2.4`.
pub open spec fn below_power(k: int, n: int) -> bool {
    pow(k, 5) * pow2(367) <= pow(n, 12)
}

/// The greatest 64-bit `k` for which `k / 2^61` is not above `(n / 2^56)` to
/// the power `2.4`.
pub open spec fn power_code(n: u64) -> u64 {
    choose|k: u64| is_power_code(k, n)
}

pub open spec fn is_power_code(k: u64, n: u64) -> bool {
    below_power(k as int, n as int) && (k == u64::MAX || !below_power(k + 1, n as int))
}

proof fn lemma_below_monotone(a: int, b: int, n: int)
    requires
        0 <= a <= b,
        below_power(b, n),
    ensures
        below_power(a, n),
{
    if a == 0 {
        vstd::arithmetic::power::lemma0_pow(5);
        lemma_twelfth_nonnegative(n);
    } else {
        vstd::arithmetic::power::lemma_pow_positive(a, 5);
        lemma_fifth_grows(a, b);
        lemma_pow2_pos(367);
        assert(pow(a, 5) * pow2(367) <= pow(b, 5) * pow2(367)) by (nonlinear_arith)
            requires
                pow(a, 5) <= pow(b, 5),
                pow2(367) > 0,
        ;
    }
}

proof fn lemma_fifth_grows(a: int, b: int)
    requires
        0 <= a <= b,
    ensures
        pow(a, 5) <= pow(b, 5),
{
    reveal_with_fuel(pow, 6);
    assert(a * a <= b * b) by (nonlinear_arith)
        requires
            0 <= a <= b,
    ;
    let a2 = a * a;
    let b2 = b * b;
    assert(0 <= a2) by (nonlinear_arith)
        requires
            a2 == a * a,
    ;
    assert(a2 * a2 <= b2 * b2) by (nonlinear_arith)
        requires
            0 <= a2 <= b2,
    ;
    assert(0 <= a2 * a2) by (nonlinear_arith);
    let a4 = a2 * a2;
    let b4 = b2 * b2;
    assert(a * a4 <= b * b4) by (nonlinear_arith)
        requires
            0 <= a <= b,
            0 <= a4 <= b4,
    ;
    assert(a * (a * (a * (a * (a * 1)))) == a * ((a * a) * (a * a))) by (nonlinear_arith);
    assert(b * (b * (b * (b * (b * 1)))) == b * ((b * b) * (b * b))) by (nonlinear_arith);
}

proof fn lemma_twelfth_nonnegative(n: int)
    ensures
        pow(n, 12) >= 0,
{
    vstd::arithmetic::power::lemma_pow_adds(n, 6, 6);
    let s = pow(n, 6);
    assert(s * s >= 0) by (nonlinear_arith);
}

proof fn lemma_power_code_unique(k: u64, n: u64)
    requires
        is_power_code(k, n),
    ensures
        power_code(n) == k,
{
    let c = power_code(n);
    assert(is_power_code(c, n));
    if c < k {
        lemma_below_monotone(c + 1, k as int, n as int);
    } else if k < c {
        lemma_below_monotone(k + 1, c as int, n as int);
    }
}

/// The limbs of `n` to the power `exponent`.
fn power(n: u64, exponent: usize) -> (result: Vec<u64>)
    ensures
        value(result@) == pow(n as int, exponent as nat),
{
    let mut result: Vec<u64> = Vec::new();
    result.push(1);
    proof {
        reveal_with_fuel(pow, 1);
        assert(result@.drop_last() =~= Seq::<u64>::empty());
        assert(pow(base(), 0) == 1);
        assert(pow(n as int, 0) == 1);
        assert(value(result@) == value(result@.drop_last()) + 1 * pow(base(), 0));
    }
    let mut i: usize = 0;
    while i < exponent
        invariant
            i <= exponent,
            value(result@) == pow(n as int, i as nat),
        decreases exponent - i,
    {
        result = scaled(&result, n);
        proof {
            reveal_with_fuel(pow, 2);
            assert(pow(n as int, (i + 1) as nat) == n * pow(n as int, i as nat));
            assert(pow(n as int, i as nat) * n == n * pow(n as int, i as nat))
                by (nonlinear_arith);
        }
        i = i + 1;
    }
    result
}

fn is_below_power(k: u64, n: u64) -> (result: bool)
    ensures
        result == below_power(k as int, n as int),
{
    let mut left = power(k, 5);
    let ghost fifth = value(left@);
    let mut i: usize = 0;
    let step: u64 = 0x4000_0000_0000_0000;
    proof {
        lemma2_to64();
        lemma2_to64_rest();
        assert(pow2(0) == 1);
        assert(fifth * 1 == fifth);
    }
    while i < 5
        invariant
            i <= 5,
            step == pow2(62),
            value(left@) == fifth * pow2((62 * i) as nat),
        decreases 5 - i,
    {
        left = scaled(&left, step);
        proof {
            lemma_pow2_adds((62 * i) as nat, 62);
            let p = pow2((62 * i) as nat);
            let q = pow2(62);
            assert((fifth * p) * q == fifth * (p * q)) by (nonlinear_arith);
        }
        i = i + 1;
    }
    left = scaled(&left, 0x0200_0000_0000_0000);
    proof {
        lemma_pow2_adds(310, 57);
        let p = pow2(310);
        let q = pow2(57);
        assert((fifth * p) * q == fifth * (p * q)) by (nonlinear_arith);
    }
    let right = power(n, 12);
    not_greater(left, right)
}

/// Computes `power_code`.
pub fn find_power_code(n: u64) -> (k: u64)
    ensures
        k == power_code(n),
        is_power_code(k, n),
{
    if is_below_power(u64::MAX, n) {
        proof {
            lemma_power_code_unique(u64::MAX, n);
        }
        return u64::MAX;
    }
    let mut low: u64 = 0;
    let mut high: u64 = u64::MAX;
    proof {
        vstd::arithmetic::power::lemma0_pow(5);
        lemma_twelfth_nonnegative(n as int);
    }
    while high - low > 1
        invariant
            low < high,
            below_power(low as int, n as int),
            !below_power(high as int, n as int),
        decreases high - low,
    {
        let middle: u64 = low + (high - low) / 2;
        if is_below_power(middle, n) {
            low = middle;
        } else {
            high = middle;
        }
    }
    proof {
        assert(high == low + 1);
        lemma_power_code_unique(low, n);
    }
    low
}

} // verus!
