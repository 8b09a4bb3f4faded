//! Numbers written out in decimal, to the last digit.
use crate::double::Double;
use crate::message::{digits, joined};
use vstd::arithmetic::power::*;
use vstd::arithmetic::power2::*;
use vstd::prelude::*;
use vstd::string::*;

verus! {

/// What decimal digits count, the lowest first.
pub open spec fn amount(digits: Seq<u8>) -> int
    decreases digits.len(),
{
    if digits.len() == 0 {
        0
    } else {
        digits[0] + 10 * amount(digits.drop_first())
    }
}

/// Every one is a decimal digit.
pub open spec fn all_digits(digits: Seq<u8>) -> bool {
    forall|i: int| 0 <= i < digits.len() ==> #[trigger] digits[i] < 10
}

/// Digits as text, the highest first.
pub open spec fn digit_text(digits: Seq<u8>) -> Seq<char>
    decreases digits.len(),
{
    if digits.len() == 0 {
        seq![]
    } else {
        digit_text(digits.drop_first()).push(crate::message::digit_char(digits[0] as nat))
    }
}

/// Digits of a number, without zeros in front.
pub open spec fn canonical(digits: Seq<u8>) -> bool {
    &&& digits.len() > 0
    &&& all_digits(digits)
    &&& digits.len() > 1 ==> digits.last() != 0
}

/// A number of binary places in lowest terms.
pub open spec fn reduced(size: int, places: nat) -> (int, nat)
    decreases places,
{
    if places > 0 && size % 2 == 0 {
        reduced(size / 2, (places - 1) as nat)
    } else {
        (size, places)
    }
}

/// The exact decimal of a finite number: its digits, shifted down by as many decimal
/// places as it has binary ones.
pub open spec fn spelling(number: Double) -> Seq<char> {
    let (size, places) = reduced(crate::double::code_units(number.code()), 1074);
    (if number.negative() {
        "-"@
    } else {
        ""@
    }) + crate::message::decimal((size * pow(5, places)) as nat) + "e-"@
        + crate::message::decimal(places)
}

/// Reducing keeps the value.
proof fn lemma_reduced_value(size: int, places: nat)
    requires
        size >= 0,
    ensures
        ({
            let (least, left) = reduced(size, places);
            &&& least >= 0
            &&& left <= places
            &&& size == least * pow2((places - left) as nat)
        }),
    decreases places,
{
    if places > 0 && size % 2 == 0 {
        lemma_reduced_value(size / 2, (places - 1) as nat);
        let (least, left) = reduced(size, places);
        let p = pow2((places - 1 - left) as nat) as int;
        lemma_pow2_unfold((places - left) as nat);
        assert(2 * (least * p) == least * (2 * p)) by (nonlinear_arith);
    } else {
        lemma2_to64();
        assert(size * 1 == size) by (nonlinear_arith);
    }
}

/// Common factors of two do not matter.
proof fn lemma_reduced_same(size: int, places: nat, more: nat)
    requires
        size >= 0,
    ensures
        reduced(size * pow2(more), places + more) == reduced(size, places),
    decreases more,
{
    if more == 0 {
        lemma2_to64();
        assert(size * 1 == size) by (nonlinear_arith);
    } else {
        let p = pow2((more - 1) as nat) as int;
        lemma_pow2_unfold(more);
        assert(size * (2 * p) == 2 * (size * p)) by (nonlinear_arith);
        assert((2 * (size * p)) % 2 == 0 && (2 * (size * p)) / 2 == size * p);
        assert((places + more - 1) as nat == places + (more - 1) as nat);
        lemma_reduced_same(size, places, (more - 1) as nat);
    }
}

/// The spelling of a number is exact: the digits, times ten to minus the places, are
/// the number.
pub proof fn spellings_are_exact(number: Double)
    ensures
        ({
            let (size, places) = reduced(crate::double::code_units(number.code()), 1074);
            &&& size >= 0
            &&& (size * pow(5, places)) * pow2(1074) == crate::double::code_units(number.code())
                * pow(10, places)
        }),
{
    Double::sizes_are_not_negative(number);
    lemma_reduced_value(crate::double::code_units(number.code()), 1074);
    let (size, places) = reduced(crate::double::code_units(number.code()), 1074);
    lemma_binary_places(size, places, (1074 - places) as nat);
}

/// A number with a highest digit is not zero.
proof fn lemma_amount_positive(digits: Seq<u8>)
    requires
        digits.len() > 0,
        digits.last() != 0,
    ensures
        amount(digits) > 0,
    decreases digits.len(),
{
    if digits.len() > 1 {
        assert(digits.drop_first().last() == digits.last());
        lemma_amount_positive(digits.drop_first());
    } else {
        assert(digits.drop_first() =~= Seq::<u8>::empty());
        assert(amount(digits.drop_first()) == 0);
    }
}

/// Digits without zeros in front are how their amount is written.
proof fn lemma_digits_are_decimal(digits: Seq<u8>)
    requires
        canonical(digits),
    ensures
        amount(digits) >= 0,
        digit_text(digits) == crate::message::decimal(amount(digits) as nat),
    decreases digits.len(),
{
    let rest = digits.drop_first();
    let low = digits[0] as int;
    if digits.len() == 1 {
        assert(rest =~= Seq::<u8>::empty());
        assert(amount(rest) == 0);
        assert(digit_text(rest) =~= Seq::<char>::empty());
        assert(digit_text(digits) =~= seq![crate::message::digit_char(low as nat)]);
    } else {
        assert(rest.last() == digits.last());
        lemma_amount_positive(rest);
        lemma_digits_are_decimal(rest);
        let n = amount(digits);
        assert(n == low + 10 * amount(rest));
        assert(n / 10 == amount(rest) && n % 10 == low);
    }
}

/// One more digit on top.
proof fn lemma_amount_push(digits: Seq<u8>, top: u8)
    ensures
        amount(digits.push(top)) == amount(digits) + top * pow(10, digits.len()),
    decreases digits.len(),
{
    let more = digits.push(top);
    if digits.len() == 0 {
        lemma_pow0(10);
        assert(more.drop_first() =~= Seq::<u8>::empty());
        assert(amount(more.drop_first()) == 0);
        assert(top * 1 == top) by (nonlinear_arith);
    } else {
        assert(more.drop_first() =~= digits.drop_first().push(top));
        lemma_amount_push(digits.drop_first(), top);
        let p = pow(10, (digits.len() - 1) as nat);
        reveal(pow);
        assert(pow(10, digits.len()) == 10 * p);
        assert(10 * (top * p) == top * (10 * p)) by (nonlinear_arith);
    }
}

/// The digits of a number.
fn to_digits(n: u64) -> (result: Vec<u8>)
    ensures
        canonical(result@),
        amount(result@) == n,
{
    let mut result: Vec<u8> = Vec::new();
    let mut rest: u64 = n;
    result.push((rest % 10) as u8);
    rest = rest / 10;
    proof {
        lemma_amount_push(Seq::<u8>::empty(), result@[0]);
        assert(result@ =~= Seq::<u8>::empty().push(result@[0]));
        lemma_pow0(10);
        lemma_pow1(10);
        let low = result@[0] as int;
        assert(low * 1 == low) by (nonlinear_arith);
        let high = rest as int;
        assert(n == low + high * 10);
    }
    while rest > 0
        invariant
            result@.len() > 0,
            all_digits(result@),
            n == amount(result@) + rest * pow(10, result@.len()),
            rest == 0 ==> canonical(result@),
        decreases rest,
    {
        let ghost before = result@;
        let ghost whole = rest as int;
        let low: u8 = (rest % 10) as u8;
        result.push(low);
        rest = rest / 10;
        proof {
            lemma_amount_push(before, low);
            let p = pow(10, before.len());
            reveal(pow);
            assert(pow(10, result@.len()) == 10 * p);
            let high = rest as int;
            assert(whole == low + 10 * high);
            assert(whole * p == low * p + high * (10 * p)) by (nonlinear_arith)
                requires
                    whole == low + 10 * high,
            ;
        }
    }
    proof {
        let p = pow(10, result@.len());
        assert(0 * p == 0) by (nonlinear_arith);
    }
    result
}

/// `digits` times a small `factor`.
fn scaled(digits: &Vec<u8>, factor: u8) -> (result: Vec<u8>)
    requires
        canonical(digits@),
        0 < factor < 10,
    ensures
        canonical(result@),
        amount(result@) == amount(digits@) * factor,
{
    let mut result: Vec<u8> = Vec::new();
    let mut carry: u8 = 0;
    let mut i: usize = 0;
    proof {
        lemma_pow0(10);
        assert(digits@.take(0) =~= Seq::<u8>::empty());
        assert(0 * factor == 0) by (nonlinear_arith);
    }
    while i < digits.len()
        invariant
            i <= digits@.len(),
            all_digits(digits@),
            0 < factor < 10,
            carry < 10,
            result@.len() == i,
            all_digits(result@),
            amount(result@) + carry * pow(10, i as nat) == amount(digits@.take(i as int)) * factor,
            i > 0 && digits@[i - 1] > 0 ==> result@.last() > 0 || carry > 0,
        decreases digits@.len() - i,
    {
        let digit: u8 = digits[i];
        assert(digit * factor <= 81) by (nonlinear_arith)
            requires
                digit < 10,
                0 < factor < 10,
        ;
        let sum: u8 = digit * factor + carry;
        assert(digit > 0 ==> digit * factor > 0) by (nonlinear_arith)
            requires
                0 < factor,
        ;
        let ghost before = result@;
        let ghost carried = carry as int;
        result.push(sum % 10);
        carry = sum / 10;
        proof {
            let p = pow(10, i as nat);
            let low = sum % 10;
            let high = carry as int;
            lemma_amount_push(before, low);
            lemma_amount_push(digits@.take(i as int), digit);
            assert(digits@.take(i + 1) =~= digits@.take(i as int).push(digit));
            reveal(pow);
            assert(pow(10, (i + 1) as nat) == 10 * p);
            let old_amount = amount(before);
            let taken = amount(digits@.take(i as int));
            assert(old_amount + low * p + high * (10 * p) == (taken + digit * p) * factor)
                by (nonlinear_arith)
                requires
                    old_amount + carried * p == taken * factor,
                    low + 10 * high == digit * factor + carried,
            ;
        }
        i = i + 1;
    }
    assert(digits@.take(i as int) =~= digits@);
    if carry > 0 {
        proof {
            lemma_amount_push(result@, carry);
        }
        result.push(carry);
    } else {
        proof {
            let p = pow(10, i as nat);
            assert(0 * p == 0) by (nonlinear_arith);
        }
    }
    result
}

/// The digits of `n` times a power of a small `factor`.
fn grown(n: u64, factor: u8, count: u32) -> (result: Vec<u8>)
    requires
        0 < factor < 10,
    ensures
        canonical(result@),
        amount(result@) == n * pow(factor as int, count as nat),
{
    let mut result = to_digits(n);
    let mut i: u32 = 0;
    proof {
        lemma_pow0(factor as int);
        assert(n * 1 == n) by (nonlinear_arith);
    }
    while i < count
        invariant
            i <= count,
            0 < factor < 10,
            canonical(result@),
            amount(result@) == n * pow(factor as int, i as nat),
        decreases count - i,
    {
        result = scaled(&result, factor);
        proof {
            let p = pow(factor as int, i as nat);
            reveal(pow);
            assert(pow(factor as int, (i + 1) as nat) == factor * p);
            assert((n * p) * factor == n * (factor * p)) by (nonlinear_arith);
        }
        i = i + 1;
    }
    result
}

/// Writes digits, the highest first.
fn written(digits: &Vec<u8>) -> (text: String)
    requires
        all_digits(digits@),
    ensures
        text@ == digit_text(digits@),
{
    let mut text = String::from_str("");
    let mut i: usize = digits.len();
    proof {
        reveal_strlit("");
        assert(digits@.skip(i as int) =~= Seq::<u8>::empty());
        assert(text@ =~= digit_text(digits@.skip(i as int)));
    }
    while i > 0
        invariant
            i <= digits@.len(),
            all_digits(digits@),
            text@ == digit_text(digits@.skip(i as int)),
        decreases i,
    {
        i = i - 1;
        let more = digits_of(digits[i]);
        proof {
            let rest = digits@.skip(i as int);
            assert(rest.drop_first() =~= digits@.skip(i + 1));
            assert(rest[0] == digits@[i as int]);
        }
        text = joined(text, more.as_str());
        assert(text@ =~= digit_text(digits@.skip(i as int)));
    }
    assert(digits@.skip(0) =~= digits@);
    text
}

fn digits_of(digit: u8) -> (text: String)
    requires
        digit < 10,
    ensures
        text@ == seq![crate::message::digit_char(digit as nat)],
{
    digits(digit as u64)
}

/// Moving down by `places` binary places is growing by as many factors of five and
/// moving down by as many decimal places.
proof fn lemma_binary_places(m: int, places: nat, above: nat)
    requires
        places + above == 1074,
    ensures
        (m * pow(5, places)) * pow2(1074) == (m * pow2(above)) * pow(10, places),
{
    let five = pow(5, places);
    let two = pow2(places) as int;
    let up = pow2(above) as int;
    lemma_pow_distributes(2, 5, places);
    lemma_pow2(places);
    lemma_pow2_adds(places, above);
    assert((m * five) * (two * up) == (m * up) * (two * five)) by (nonlinear_arith);
}

impl Double {
    /// The exact decimal of a finite number.
    pub fn decimal_text(self) -> (text: String)
        requires
            self.finite(),
        ensures
            text@ == spelling(self),
    {
        let (significand, exponent) = self.parts();
        let found: Vec<u8>;
        let mut places: u32 = 0;
        let ghost exact = crate::double::code_units(self.code());
        if exponent >= 1074 {
            let count: u32 = exponent - 1074;
            found = grown(significand, 2, count);
            proof {
                lemma_pow2(count as nat);
                lemma_pow0(5);
                lemma_pow2_adds(1074, count as nat);
                let m = significand as int;
                let p = pow2(count as nat) as int;
                let unit = pow2(1074) as int;
                assert((m * p) * unit == m * (unit * p)) by (nonlinear_arith);
                assert(0 <= m * p && (m * p) * 1 == m * p) by (nonlinear_arith)
                    requires
                        0 <= m,
                        0 <= p,
                ;
                lemma_reduced_same(m * p, 0, 1074);
                assert(reduced(exact, 1074) == (m * p, 0nat));
            }
        } else {
            let mut m: u64 = significand;
            places = 1074 - exponent;
            proof {
                lemma_reduced_same(significand as int, places as nat, exponent as nat);
            }
            while places > 0 && m % 2 == 0
                invariant
                    places <= 1074,
                    reduced(m as int, places as nat) == reduced(exact, 1074),
                decreases places,
            {
                m = m / 2;
                places = places - 1;
            }
            found = grown(m, 5, places);
            assert(reduced(exact, 1074) == (m as int, places as nat));
        }
        proof {
            lemma_digits_are_decimal(found@);
        }
        let sign = if self.is_negative() {
            "-"
        } else {
            ""
        };
        let text = joined(
            joined(
                joined(String::from_str(sign), written(&found).as_str()),
                "e-",
            ),
            digits(places as u64).as_str(),
        );
        assert(text@ =~= spelling(self));
        text
    }
}

} // verus!
