//! When commands are sent and sent again.
use crate::deadlines::{after, early, ordinary};
use crate::dispatch::Model;
use crate::ordered::OrderedKey;
use crate::reconcile::{
    CommandEntity, DeviceId, DispatchAcceptance, DispatchToken, ReconcileAction, StagedAttempt,
};
use crate::state::MonotonicTime;
use crate::value::{DeviceTarget, LightTarget};
use vstd::prelude::*;

verus! {

/// `actions` hold a command that asks `target` of `entity`.
pub open spec fn asked(
    actions: Seq<ReconcileAction>,
    entity: CommandEntity,
    target: DeviceTarget,
) -> bool {
    exists|k: int|
        0 <= k < actions.len() && (#[trigger] actions[k] matches ReconcileAction::Command {
            entity: e,
            target: t,
            ..
        } && e == entity && t == target)
}

/// `actions` hold some command for `entity`.
pub open spec fn addressed(actions: Seq<ReconcileAction>, entity: CommandEntity) -> bool {
    exists|k: int|
        0 <= k < actions.len() && (#[trigger] actions[k] matches ReconcileAction::Command {
            entity: e,
            ..
        } && e == entity)
}

/// `target` is staged for device `i` as attempt number `attempts`.
pub open spec fn tried(model: Model, i: int, target: DeviceTarget, attempts: int) -> bool {
    exists|k: int|
        0 <= k < model.staged.len() && ((#[trigger] model.staged[k]).affected[i] matches Some(
            attempt,
        ) && attempt.target == target && attempt.attempts == attempts)
}

/// Two places hold two names.
pub(crate) proof fn lemma_ids_differ(ids: Seq<DeviceId>, i: int, j: int)
    requires
        crate::reconcile::ids_ascend(ids),
        0 <= i < ids.len(),
        0 <= j < ids.len(),
        i != j,
    ensures
        ids[i] != ids[j],
{
    crate::text::before_irreflexive(ids[i].key());
    if i < j {
        assert(crate::text::before(ids[i].key(), ids[j].key()));
    } else {
        assert(crate::text::before(ids[j].key(), ids[i].key()));
    }
}

impl Model {
    /// Where the command for a device with something outstanding stands in a batch.
    pub(crate) proof fn lemma_place(self, attempts: Seq<Option<u8>>, n: int, i: int) -> (k: int)
        requires
            0 <= i < n <= self.ids.len(),
            self.outstanding(attempts, i) is Some,
        ensures
            0 <= k < self.outstanding_batch(attempts, n).len(),
            self.outstanding_batch(attempts, n)[k] == (
                CommandEntity::Device(self.ids[i]),
                self.outstanding(attempts, i)->0.target,
            ),
        decreases n,
    {
        if i == n - 1 {
            self.outstanding_batch(attempts, n - 1).len() as int
        } else {
            self.lemma_place(attempts, n - 1, i)
        }
    }

    /// Which device a command of a batch is for.
    pub(crate) proof fn lemma_owner(self, attempts: Seq<Option<u8>>, n: int, k: int) -> (i: int)
        requires
            0 <= n <= self.ids.len(),
            0 <= k < self.outstanding_batch(attempts, n).len(),
        ensures
            0 <= i < n,
            self.outstanding(attempts, i) is Some,
            self.outstanding_batch(attempts, n)[k] == (
                CommandEntity::Device(self.ids[i]),
                self.outstanding(attempts, i)->0.target,
            ),
        decreases n,
    {
        if k < self.outstanding_batch(attempts, n - 1).len() {
            self.lemma_owner(attempts, n - 1, k)
        } else {
            n - 1
        }
    }

    /// A new wish for a device that can be reached and does not show it is sent to that
    /// device at once; the other devices keep what is known of them.
    pub proof fn wishes_are_sent(self, i: int, target: LightTarget, now: MonotonicTime)
        requires
            self.wf(),
            0 <= i < self.ids.len(),
            self.can_publish(),
            self.devices[i].availability is Online,
            !self.devices[i].desires(self.devices[i].capabilities.degraded(target)),
            !crate::reconcile::synchronized(
                Some(self.devices[i].capabilities.degraded(target)),
                self.devices[i].observed,
                self.devices[i].color_policy,
            ),
            !crate::reconcile::asks_nothing(self.devices[i].capabilities.degraded(target)),
            self.desired(i, target, now) is Ok,
        ensures
            ({
                let (next, actions) = self.desired(i, target, now)->Ok_0;
                let wanted = self.devices[i].capabilities.degraded(target);
                &&& asked(actions, CommandEntity::Device(self.ids[i]), wanted)
                &&& next.devices[i].desired == Some(wanted)
                &&& next.devices[i].observed == self.devices[i].observed
                &&& !next.devices[i].in_sync
                &&& forall|j: int|
                    0 <= j < self.ids.len() && j != i ==> #[trigger] next.devices[j]
                        == self.devices[j]
            }),
    {
        let state = self.devices[i];
        let wanted = state.capabilities.degraded(target);
        let changed = self.with_device(i, state.desiring(wanted));
        let mask = crate::dispatch::only(self.ids.len(), i);
        let attempts = crate::dispatch::first_attempts(changed.canceled(mask).update(i, true));
        let ready = changed.without_work(mask);
        let n = self.ids.len() as int;
        assert(attempts[i] == Some(1u8));
        assert(ready.devices[i] == state.desiring(wanted));
        assert(ready.outstanding(attempts, i) is Some);
        let batch = ready.outstanding_batch(attempts, n);
        let affected = Seq::new(ready.ids.len(), |i: int| ready.outstanding(attempts, i));
        assert(affected[i] is Some);
        let k = ready.lemma_place(attempts, n, i);
        let (next, actions) = self.desired(i, target, now)->Ok_0;
        assert(actions == crate::dispatch::commands(
            DispatchToken { value: self.next_token },
            batch,
        ));
        assert(actions[k] matches ReconcileAction::Command { entity: e, target: t, .. } && e
            == CommandEntity::Device(self.ids[i]) && t == wanted);
    }

    /// A wish that a device already has, or already shows, is not sent to it.
    pub proof fn fulfilled_wishes_are_not_sent(self, i: int, target: LightTarget, now: MonotonicTime)
        requires
            self.wf(),
            0 <= i < self.ids.len(),
            self.devices[i].desires(self.devices[i].capabilities.degraded(target))
                || crate::reconcile::synchronized(
                Some(self.devices[i].capabilities.degraded(target)),
                self.devices[i].observed,
                self.devices[i].color_policy,
            ) || !(self.devices[i].availability is Online),
            self.desired(i, target, now) is Ok,
        ensures
            !addressed(self.desired(i, target, now)->Ok_0.1, CommandEntity::Device(self.ids[i])),
    {
        let state = self.devices[i];
        let wanted = state.capabilities.degraded(target);
        if !state.desires(wanted) && self.can_publish() {
            let changed = self.with_device(i, state.desiring(wanted));
            let mask = crate::dispatch::only(self.ids.len(), i);
            let attempts = crate::dispatch::first_attempts(
                changed.canceled(mask).update(i, !state.desiring(wanted).in_sync),
            );
            let ready = changed.without_work(mask);
            let n = self.ids.len() as int;
            let batch = ready.outstanding_batch(attempts, n);
            let (next, actions) = self.desired(i, target, now)->Ok_0;
            assert(ready.devices[i] == state.desiring(wanted));
            assert(ready.outstanding(attempts, i) is None);
            if actions.len() > 0 {
                assert(actions == crate::dispatch::commands(
                    DispatchToken { value: self.next_token },
                    batch,
                ));
                assert forall|k: int| 0 <= k < actions.len() implies !(
                #[trigger] actions[k] matches ReconcileAction::Command { entity: e, .. } && e
                    == CommandEntity::Device(self.ids[i])) by {
                    let j = ready.lemma_owner(attempts, n, k);
                    assert(batch[k].0 == CommandEntity::Device(self.ids[j]));
                    if self.ids[j] == self.ids[i] {
                        lemma_ids_differ(self.ids, i, j);
                    }
                }
            }
        }
    }

    /// A command that was not seen to work in time is sent again to a device that can be
    /// reached, while attempts are left and nothing else is under way for it; no other
    /// command is.
    pub proof fn late_commands_are_sent_again(self, n: int, now: MonotonicTime)
        requires
            self.wf(),
            0 <= n <= self.ids.len(),
            self.retried(n, now) is Ok,
        ensures
            ({
                let (next, actions) = self.retried(n, now)->Ok_0;
                &&& next.devices == self.devices
                &&& forall|i: int|
                    0 <= i < n ==> match (#[trigger] self.devices[i]).pending {
                        Some(pending) => if pending.deadline.value.at_most(now.value)
                            && self.devices[i].availability is Online && pending.attempts
                            < self.policy.max_attempts && !self.scheduled(i) {
                            &&& asked(
                                actions,
                                CommandEntity::Device(self.ids[i]),
                                pending.target,
                            )
                            &&& tried(next, i, pending.target, pending.attempts + 1)
                        } else {
                            !addressed(actions, CommandEntity::Device(self.ids[i]))
                        },
                        None => !addressed(actions, CommandEntity::Device(self.ids[i])),
                    }
                &&& forall|i: int|
                    n <= i < self.ids.len() ==> !addressed(
                        actions,
                        CommandEntity::Device(#[trigger] self.ids[i]),
                    )
            }),
        decreases n,
    {
        if n > 0 {
            self.late_commands_are_sent_again(n - 1, now);
            let (part, first) = self.retried(n - 1, now)->Ok_0;
            let (next, actions) = self.retried(n, now)->Ok_0;
            if self.overdue(n - 1, now) {
                let pending = self.devices[n - 1].pending->0;
                let entity = CommandEntity::Device(self.ids[n - 1]);
                let more = crate::dispatch::commands(
                    DispatchToken { value: part.next_token },
                    seq![(entity, pending.target)],
                );
                let affected = crate::dispatch::sole(
                    self.ids.len(),
                    n - 1,
                    StagedAttempt {
                        target: pending.target,
                        attempts: (pending.attempts + 1) as u8,
                    },
                );
                assert(affected[n - 1] is Some);
                assert(actions == first + more);
                assert(actions[first.len() as int] == more[0]);
                assert(asked(actions, entity, pending.target));
                assert(next.staged == part.staged.push(next.staged.last()));
                assert(next.staged[part.staged.len() as int].affected == affected);
                assert(tried(next, n - 1, pending.target, pending.attempts + 1));
                assert forall|i: int| 0 <= i < self.ids.len() && i != n - 1 implies addressed(
                    actions,
                    CommandEntity::Device(#[trigger] self.ids[i]),
                ) == addressed(first, CommandEntity::Device(self.ids[i])) by {
                    lemma_ids_differ(self.ids, i, n - 1);
                    let other = CommandEntity::Device(self.ids[i]);
                    if addressed(first, other) {
                        let k = choose|k: int|
                            0 <= k < first.len() && (
                            #[trigger] first[k] matches ReconcileAction::Command { entity: e, .. }
                                && e == other);
                        assert(actions[k] == first[k]);
                    }
                    if addressed(actions, other) {
                        let k = choose|k: int|
                            0 <= k < actions.len() && (
                            #[trigger] actions[k] matches ReconcileAction::Command {
                                entity: e,
                                ..
                            } && e == other);
                        assert(k < first.len());
                        assert(actions[k] == first[k]);
                    }
                }
                assert forall|i: int, target: DeviceTarget|
                    asked(first, CommandEntity::Device(self.ids[i]), target) implies #[trigger] asked(
                    actions,
                    CommandEntity::Device(self.ids[i]),
                    target,
                ) by {
                    let k = choose|k: int|
                        0 <= k < first.len() && (
                        #[trigger] first[k] matches ReconcileAction::Command {
                            entity: e,
                            target: t,
                            ..
                        } && e == CommandEntity::Device(self.ids[i]) && t == target);
                    assert(actions[k] == first[k]);
                }
                assert forall|i: int, target: DeviceTarget, attempts: int|
                    tried(part, i, target, attempts) implies #[trigger] tried(
                    next,
                    i,
                    target,
                    attempts,
                ) by {
                    let k = choose|k: int|
                        0 <= k < part.staged.len() && (
                        (#[trigger] part.staged[k]).affected[i] matches Some(attempt)
                            && attempt.target == target && attempt.attempts == attempts);
                    assert(next.staged[k] == part.staged[k]);
                }
                assert forall|i: int| 0 <= i < n implies match (#[trigger] self.devices[i]).pending {
                    Some(pending) => if self.overdue(i, now) {
                        &&& asked(actions, CommandEntity::Device(self.ids[i]), pending.target)
                        &&& tried(next, i, pending.target, pending.attempts + 1)
                    } else {
                        !addressed(actions, CommandEntity::Device(self.ids[i]))
                    },
                    None => !addressed(actions, CommandEntity::Device(self.ids[i])),
                } by {
                    assert(self.ids[i] == self.ids[i]);
                }
            } else {
                assert(self.ids[n - 1] == self.ids[n - 1]);
            }
        }
    }

    /// Once a command is accepted to the last of its operations, its devices are awaited
    /// until the transition and an interval are over, unless they show what is wanted.
    pub proof fn accepted_commands_are_awaited(
        self,
        token: DispatchToken,
        index: usize,
        now: MonotonicTime,
        k: int,
        i: int,
    )
        requires
            self.wf(),
            0 <= k < self.staged.len(),
            k == crate::dispatch::token_place(self.staged, token),
            0 <= i < self.ids.len(),
            self.staged[k].affected[i] is Some,
            self.accepted(token, index, now) matches Ok((_, DispatchAcceptance::BatchAccepted)),
            early(now),
            ordinary(self.policy.interval_seconds),
            ordinary(self.policy.dispatch_acceptance_timeout_seconds),
            ordinary(self.policy.dispatch_failure_backoff_seconds),
            self.staged[k].affected[i]->0.target.transition_ms matches Some(ms) ==> ms
                <= 1_000_000_000,
        ensures
            ({
                let attempt = self.staged[k].affected[i]->0;
                let state = self.accepted(token, index, now)->Ok_0.0.devices[i];
                let wait = match attempt.target.transition_ms {
                    Some(ms) => ms as real / 1_000real,
                    None => 0real,
                };
                &&& state.last_command == Some(attempt.target)
                &&& state.desired == self.devices[i].desired
                &&& state.observed == self.devices[i].observed
                &&& state.in_sync ==> state.pending is None
                &&& !state.in_sync ==> (state.pending matches Some(pending) && pending.target
                    == attempt.target && pending.attempts == attempt.attempts && after(
                    pending.deadline,
                    now,
                    wait + self.policy.interval_seconds.amount(),
                ))
            }),
    {
        let attempt = self.staged[k].affected[i]->0;
        match attempt.target.transition_ms {
            Some(ms) => {
                self.policy.deadlines_lie_ahead(now, ms);
            },
            None => {
                self.policy.deadlines_lie_ahead(now, 0);
            },
        }
    }
}

} // verus!
