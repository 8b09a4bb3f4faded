//! Lengths of time in whole nanoseconds.
use crate::double::Double;
use vstd::arithmetic::power2::*;
use vstd::prelude::*;

verus! {

pub const NANOS_PER_SECOND: u32 = 1_000_000_000;

/// Bits of `1_000_000_000.0`.
pub const BILLION: u64 = 0x41cd_cd65_0000_0000;

/// Bits of two to the power of 64.
pub const TOO_LONG: u64 = 0x43f0_0000_0000_0000;

/// The integer nearest to `n / d`, halves going to the even one.
pub open spec fn half_even(n: int, d: int) -> int {
    let floor = n / d;
    let rest = n % d;
    if 2 * rest < d || (2 * rest == d && floor % 2 == 0) {
        floor
    } else {
        floor + 1
    }
}

/// A length of time.
#[derive(Debug, Clone, Copy, PartialEq, Eq)]
pub struct Pause {
    pub seconds: u64,
    pub nanos: u32,
}

impl Pause {
    pub open spec fn wf(self) -> bool {
        self.nanos < NANOS_PER_SECOND
    }

    /// So many seconds are not negative, and their whole part fits.
    pub open spec fn holds(seconds: Double) -> bool {
        (Double { bits: 0 }).at_most(seconds) && seconds.less(Double { bits: TOO_LONG })
    }

    /// The nanoseconds nearest to so many seconds, halves going to the even number.
    pub open spec fn nanos_of(seconds: Double) -> int {
        half_even(seconds.units() * NANOS_PER_SECOND, pow2(1074) as int)
    }

    /// The length of time nearest to so many seconds.
    pub open spec fn of(seconds: Double) -> Pause {
        Pause {
            seconds: (Pause::nanos_of(seconds) / NANOS_PER_SECOND as int) as u64,
            nanos: (Pause::nanos_of(seconds) % NANOS_PER_SECOND as int) as u32,
        }
    }

    /// The length in seconds.
    pub open spec fn in_seconds(self) -> Double {
        Double::of_nat(self.seconds as nat).sum(
            Double::of_nat(self.nanos as nat).quotient(Double { bits: BILLION }),
        )
    }

    pub fn can_hold(seconds: Double) -> (result: bool)
        ensures
            result == Pause::holds(seconds),
    {
        Double::from_bits(0).le(seconds) && seconds.lt(Double::from_bits(TOO_LONG))
    }

    pub fn from_seconds(seconds: Double) -> (pause: Self)
        requires
            Pause::holds(seconds),
        ensures
            pause == Pause::of(seconds),
            Pause::nanos_of(seconds) == pause.seconds * NANOS_PER_SECOND + pause.nanos,
            pause.wf(),
    {
        let total: u128 = seconds.scaled_half_even(NANOS_PER_SECOND);
        let whole: u128 = total / 1_000_000_000;
        proof {
            assert(whole <= u64::MAX) by (nonlinear_arith)
                requires
                    whole == total as int / 1_000_000_000,
                    0 <= total <= u64::MAX * 1_000_000_000,
            ;
        }
        Pause { seconds: whole as u64, nanos: (total % 1_000_000_000) as u32 }
    }

    pub fn from_whole_seconds(seconds: u64) -> (pause: Self)
        ensures
            pause == (Pause { seconds, nanos: 0 }),
    {
        Pause { seconds, nanos: 0 }
    }

    pub fn as_seconds(self) -> (seconds: Double)
        ensures
            seconds == self.in_seconds(),
    {
        Double::from_u64(self.seconds).plus(
            Double::from_u64(self.nanos as u64).over(Double::from_bits(BILLION)),
        )
    }

    /// A length of time in seconds is a number and not negative.
    pub proof fn lengths_are_numbers(self)
        ensures
            (Double { bits: 0 }).at_most(self.in_seconds()),
    {
        let whole = Double::of_nat(self.seconds as nat);
        let part = Double::of_nat(self.nanos as nat);
        Double::counts_are_numbers(self.seconds);
        Double::counts_are_numbers(self.nanos as u64);
        Double::positive_quotients(part, Double { bits: BILLION });
        let share = part.quotient(Double { bits: BILLION });
        Double::sum_grows(whole, share);
    }

    /// Whole seconds, up to a day, are short enough to be held.
    pub proof fn short_lengths_are_held(seconds: u64, shorter: Double)
        requires
            seconds <= 86_400,
            (Double { bits: 0 }).at_most(shorter),
            shorter.at_most((Pause { seconds, nanos: 0 }).in_seconds()),
        ensures
            Pause::holds(shorter),
    {
        let whole = Double::of_nat(seconds as nat);
        let limit = Double { bits: TOO_LONG };
        let u = crate::bounds::unit();
        Double::counts_are_exact(seconds as nat);
        Double::no_part(Double { bits: BILLION });
        Double::plus_zero_is_same(whole);
        crate::double::lemma_binade(1086);
        lemma_pow2_adds(1074, 64);
        lemma_pow2_pos(1074);
        lemma2_to64();
        assert(seconds * u < u * 0x1_0000_0000_0000_0000) by (nonlinear_arith)
            requires
                seconds <= 86_400,
                u > 0,
        ;
        Double::sizes_keep_order(limit, whole);
    }
}

} // verus!
