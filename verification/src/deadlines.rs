//! How long a command is waited for.
use crate::amount::{eps, lemma_grow, power, size_of};
use crate::double::Double;
use crate::reconcile::RetryPolicy;
use crate::state::MonotonicTime;
use crate::zigbee2mqtt::AdapterOperation;
use vstd::prelude::*;

verus! {

/// A millionth of a second: more than the roundings of a point of time can be off.
pub open spec fn instant() -> real {
    1real / 1_000_000real
}

/// An ordinary number of seconds to wait.
pub open spec fn ordinary(seconds: Double) -> bool {
    seconds.finite() && 1real / 1_000real <= seconds.amount() <= 1_000_000real
}

/// A point of time within the first thousand million seconds.
pub open spec fn early(now: MonotonicTime) -> bool {
    now.value.finite() && 0real <= now.value.amount() <= 1_000_000_000real
}

/// `deadline` lies so many seconds after `now`.
pub open spec fn after(deadline: MonotonicTime, now: MonotonicTime, seconds: real) -> bool {
    deadline.value.finite() && size_of(deadline.value.amount() - (now.value.amount() + seconds))
        <= instant()
}

/// So many milliseconds, in seconds.
proof fn lemma_milliseconds(milliseconds: u64)
    requires
        milliseconds <= 1_000_000_000,
    ensures
        ({
            let seconds = Double::of_nat(milliseconds as nat).quotient(
                Double { bits: crate::reconcile::MILLISECONDS },
            );
            &&& seconds.finite()
            &&& size_of(seconds.amount() - milliseconds as real / 1_000real) <= 1real
                / 1_000_000_000real
            &&& 0real <= milliseconds as real / 1_000real <= 1_000_000real
        }),
{
    crate::wire::transitions_are_sent_in_seconds(milliseconds);
    let payload = crate::zigbee2mqtt::transition_payload(Some(milliseconds));
    assert(crate::zigbee2mqtt::MILLISECONDS == crate::reconcile::MILLISECONDS);
}

/// A sum of ordinary size is off by less than a part of an instant.
proof fn lemma_sum(a: Double, b: Double)
    requires
        a.finite(),
        b.finite(),
        size_of(a.amount() + b.amount()) <= 2_000_000_000real,
    ensures
        a.sum(b).finite(),
        size_of(a.sum(b).amount() - (a.amount() + b.amount())) <= 3real / 10_000_000real,
{
    crate::light::lemma_small();
    let x = size_of(a.amount() + b.amount());
    lemma_wide();
    Double::sum_amount(a, b);
    lemma_grow(x, 2_000_000_000real, eps());
}

proof fn lemma_wide()
    ensures
        power(1000) >= 2_000_000_000real,
{
    crate::light::lemma_small();
}

/// The end of a delay and a wait.
proof fn lemma_total(now: MonotonicTime, milliseconds: u64, seconds: Double)
    requires
        early(now),
        milliseconds <= 1_000_000_000,
        ordinary(seconds),
    ensures
        ({
            let whole = Double::of_nat(milliseconds as nat).quotient(
                Double { bits: crate::reconcile::MILLISECONDS },
            ).sum(seconds);
            let end = now.value.sum(whole);
            &&& end.finite()
            &&& now.value.less(end)
            &&& !end.at_most(now.value)
            &&& !end.less(Double { bits: 0 })
            &&& size_of(
                end.amount() - (now.value.amount() + (milliseconds as real / 1_000real
                    + seconds.amount())),
            ) <= instant()
        }),
{
    lemma_milliseconds(milliseconds);
    let part = Double::of_nat(milliseconds as nat).quotient(
        Double { bits: crate::reconcile::MILLISECONDS },
    );
    lemma_sum(part, seconds);
    let whole = part.sum(seconds);
    lemma_sum(now.value, whole);
    let end = now.value.sum(whole);
    crate::light::lemma_small();
    Double::amounts_keep_order(now.value, end);
    Double::amounts_keep_order(end, now.value);
    Double::amounts_keep_order(end, Double { bits: 0 });
}

impl RetryPolicy {
    /// A command that was sent is waited for as long as its transition takes and one
    /// interval more; a plan is to be accepted within its longest delay and the time for
    /// acceptance; what failed is tried again when the backoff is over.
    pub proof fn deadlines_lie_ahead(self, now: MonotonicTime, milliseconds: u64)
        requires
            early(now),
            milliseconds <= 1_000_000_000,
            ordinary(self.interval_seconds),
            ordinary(self.dispatch_acceptance_timeout_seconds),
            ordinary(self.dispatch_failure_backoff_seconds),
        ensures
            after(
                self.correlation_time(now, Some(milliseconds)),
                now,
                milliseconds as real / 1_000real + self.interval_seconds.amount(),
            ),
            after(self.correlation_time(now, None), now, self.interval_seconds.amount()),
            self.acceptance_time(now, milliseconds) matches Ok(deadline) && after(
                deadline,
                now,
                milliseconds as real / 1_000real
                    + self.dispatch_acceptance_timeout_seconds.amount(),
            ),
            self.failure_time(now) matches Ok(deadline) && after(
                deadline,
                now,
                self.dispatch_failure_backoff_seconds.amount(),
            ),
    {
        lemma_total(now, milliseconds, self.interval_seconds);
        lemma_total(now, 0, self.interval_seconds);
        lemma_total(now, milliseconds, self.dispatch_acceptance_timeout_seconds);
        let backoff = self.dispatch_failure_backoff_seconds;
        lemma_sum(now.value, backoff);
        let end = now.value.sum(backoff);
        crate::light::lemma_small();
        Double::amounts_keep_order(now.value, end);
        Double::amounts_keep_order(end, now.value);
        Double::amounts_keep_order(end, Double { bits: 0 });
    }
}

/// An operation falls due as many milliseconds after its plan as it is to wait.
pub proof fn operations_wait_as_planned(operation: AdapterOperation, now: MonotonicTime)
    requires
        early(now),
        operation matches AdapterOperation::Publish(publication) ==> publication.not_before_ms
            <= 1_000_000_000,
    ensures
        ({
            let due = MonotonicTime { value: crate::actor::due_time(operation, now) };
            match operation {
                AdapterOperation::Publish(publication) => after(
                    due,
                    now,
                    publication.not_before_ms as real / 1_000real,
                ),
                AdapterOperation::Subscribe(_) => after(due, now, 0real),
            }
        }),
{
    let wait = match operation {
        AdapterOperation::Publish(publication) => publication.not_before_ms,
        AdapterOperation::Subscribe(_) => 0,
    };
    lemma_milliseconds(wait);
    assert(crate::config::MILLISECONDS == crate::reconcile::MILLISECONDS);
    lemma_sum(
        now.value,
        Double::of_nat(wait as nat).quotient(Double { bits: crate::reconcile::MILLISECONDS }),
    );
}

} // verus!
