//! Commands go only where they can arrive.
use crate::dispatch::{Model, Step};
use crate::reconcile::{
    Availability, CommandEntity, DeviceId, ReconcileAction, StagedAttempt, TransportStatus,
};
use crate::state::MonotonicTime;
use crate::value::{DeviceTarget, LightTarget};
use vstd::prelude::*;

verus! {

impl Model {
    /// Broker and bridge are there and the addressee is online: the device, or every
    /// member of the group.
    pub open spec fn reachable(self, entity: CommandEntity) -> bool {
        &&& self.can_publish()
        &&& match entity {
            CommandEntity::Device(id) => exists|i: int|
                0 <= i < self.ids.len() && #[trigger] self.ids[i] == id && self.online(i),
            CommandEntity::Group(id) => exists|g: int|
                0 <= g < self.group_ids.len() && #[trigger] self.group_ids[g] == id
                    && self.all_online(g),
        }
    }

    /// Every member of group `g` is online.
    pub open spec fn all_online(self, g: int) -> bool {
        forall|i: int| 0 <= i < self.ids.len() && #[trigger] self.members(g)[i] ==> self.online(i)
    }

    /// Every command among `actions` can arrive.
    pub open spec fn reaches(self, actions: Seq<ReconcileAction>) -> bool {
        forall|k: int|
            0 <= k < actions.len() ==> ((#[trigger] actions[k]) matches ReconcileAction::Command {
                entity,
                ..
            } ==> self.reachable(entity))
    }

    /// Every entry of a batch can arrive.
    spec fn reaches_batch(self, batch: Seq<(CommandEntity, DeviceTarget)>) -> bool {
        forall|k: int| 0 <= k < batch.len() ==> self.reachable((#[trigger] batch[k]).0)
    }

    /// The step changes only the work under way, and its commands can arrive.
    spec fn sound(self, step: Step) -> bool {
        step matches Ok((next, actions)) ==> next.same_base(self) && self.reaches(actions)
    }

    proof fn lemma_same_reach(self, other: Model, actions: Seq<ReconcileAction>)
        requires
            self.same_base(other),
            self.reaches(actions),
        ensures
            other.reaches(actions),
    {
        assert forall|entity: CommandEntity| self.reachable(entity) implies other.reachable(
            entity,
        ) by {
            if let CommandEntity::Group(id) = entity {
                let g = choose|g: int|
                    0 <= g < self.group_ids.len() && #[trigger] self.group_ids[g] == id
                        && self.all_online(g);
                assert(other.group_ids[g] == id);
                assert(other.members(g) =~= self.members(g));
                assert(other.all_online(g));
            } else if let CommandEntity::Device(id) = entity {
                let i = choose|i: int|
                    0 <= i < self.ids.len() && #[trigger] self.ids[i] == id && self.online(i);
                assert(other.ids[i] == id);
            }
        }
    }

    proof fn lemma_both_reach(self, first: Seq<ReconcileAction>, second: Seq<ReconcileAction>)
        requires
            self.reaches(first),
            self.reaches(second),
        ensures
            self.reaches(first + second),
    {
        let both = first + second;
        assert forall|k: int| 0 <= k < both.len() implies ((
        #[trigger] both[k]) matches ReconcileAction::Command { entity, .. } ==> self.reachable(
            entity,
        )) by {
            if k < first.len() {
                assert(both[k] == first[k]);
            } else {
                assert(both[k] == second[k - first.len()]);
            }
        }
    }

    proof fn lemma_dispatched(
        self,
        batch: Seq<(CommandEntity, DeviceTarget)>,
        affected: Seq<Option<StagedAttempt>>,
        now: MonotonicTime,
    )
        requires
            self.reaches_batch(batch),
        ensures
            self.sound(self.dispatched(batch, affected, now)),
    {
    }

    proof fn lemma_outstanding(self, attempts: Seq<Option<u8>>, n: int)
        requires
            self.can_publish(),
            n <= self.ids.len(),
        ensures
            self.reaches_batch(self.outstanding_batch(attempts, n)),
        decreases n,
    {
        if n > 0 {
            self.lemma_outstanding(attempts, n - 1);
            assert(self.ids[n - 1] == self.ids[n - 1]);
        }
    }

    proof fn lemma_restaged(self, attempts: Seq<Option<u8>>, now: MonotonicTime)
        ensures
            self.sound(self.restaged(attempts, now)),
    {
        if self.can_publish() {
            self.lemma_outstanding(attempts, self.ids.len() as int);
            self.lemma_dispatched(
                self.outstanding_batch(attempts, self.ids.len() as int),
                Seq::new(self.ids.len(), |i: int| self.outstanding(attempts, i)),
                now,
            );
        }
    }

    proof fn lemma_commanded(self, i: int, attempts: u8, now: MonotonicTime)
        requires
            0 <= i < self.ids.len(),
        ensures
            self.sound(self.commanded(i, attempts, now)),
    {
        if let Some(target) = self.devices[i].desired {
            if self.can_publish() && self.online(i) {
                assert(self.ids[i] == self.ids[i]);
                self.lemma_dispatched(
                    seq![(CommandEntity::Device(self.ids[i]), target)],
                    crate::dispatch::sole(
                        self.ids.len(),
                        i,
                        StagedAttempt { target, attempts },
                    ),
                    now,
                );
            }
        }
    }

    proof fn lemma_fallback(
        self,
        members: Seq<bool>,
        target: DeviceTarget,
        sent: bool,
        changed: Seq<bool>,
        n: int,
    )
        requires
            self.can_publish(),
            n <= self.ids.len(),
        ensures
            self.reaches_batch(self.fallback_batch(members, target, sent, changed, n)),
        decreases n,
    {
        if n > 0 {
            self.lemma_fallback(members, target, sent, changed, n - 1);
            assert(self.ids[n - 1] == self.ids[n - 1]);
        }
    }

    proof fn lemma_group_commanded(
        self,
        g: int,
        target: DeviceTarget,
        send: bool,
        changed: Seq<bool>,
        now: MonotonicTime,
    )
        requires
            0 <= g < self.group_ids.len(),
        ensures
            self.sound(self.group_commanded(g, target, send, changed, now)),
    {
        let members = self.members(g);
        let sent = self.group_sent(members, target, send);
        if self.can_publish() {
            let fallbacks = self.fallback_batch(
                members,
                target,
                sent,
                changed,
                self.ids.len() as int,
            );
            self.lemma_fallback(members, target, sent, changed, self.ids.len() as int);
            let batch = if sent {
                seq![(CommandEntity::Group(self.group_ids[g]), target)] + fallbacks
            } else {
                fallbacks
            };
            assert forall|k: int| 0 <= k < batch.len() implies self.reachable(
                (#[trigger] batch[k]).0,
            ) by {
                if sent {
                    if k == 0 {
                        assert(self.all_online(g));
                        assert(self.group_ids[g] == self.group_ids[g]);
                    } else {
                        assert(batch[k] == fallbacks[k - 1]);
                    }
                }
            }
            assert(self.reaches_batch(batch));
            self.lemma_dispatched(
                batch,
                Seq::new(
                    self.ids.len(),
                    |i: int|
                        if members[i] && self.online(i) && (sent || self.fallback_sent(
                            i,
                            target,
                            sent,
                            changed,
                        )) {
                            Some(
                                StagedAttempt {
                                    target: self.devices[i].desired->0,
                                    attempts: 1u8,
                                },
                            )
                        } else {
                            None
                        },
                ),
                now,
            );
        }
    }

    /// One sound step after another is sound.
    proof fn lemma_then(
        self,
        next: Model,
        actions: Seq<ReconcileAction>,
        last: Model,
        more: Seq<ReconcileAction>,
    )
        requires
            next.same_base(self),
            self.reaches(actions),
            last.same_base(next),
            next.reaches(more),
        ensures
            last.same_base(self),
            self.reaches(actions + more),
    {
        next.lemma_same_reach(self, more);
        self.lemma_both_reach(actions, more);
    }

    proof fn lemma_groups_commanded(self, n: int, now: MonotonicTime)
        requires
            n <= self.group_ids.len(),
        ensures
            self.sound(self.groups_commanded(n, now)),
        decreases n,
    {
        if n > 0 {
            self.lemma_groups_commanded(n - 1, now);
            if let Ok((next, actions)) = self.groups_commanded(n - 1, now) {
                if let Some(target) = self.groups[n - 1].command_target {
                    let step = next.group_commanded(
                        n - 1,
                        target,
                        true,
                        next.members(n - 1),
                        now,
                    );
                    next.lemma_group_commanded(n - 1, target, true, next.members(n - 1), now);
                    if let Ok((last, more)) = step {
                        self.lemma_then(next, actions, last, more);
                    }
                }
            }
        }
    }

    proof fn lemma_singles_commanded(self, start: Step, n: int, now: MonotonicTime)
        requires
            self.sound(start),
            n <= self.ids.len(),
        ensures
            self.sound(self.singles_commanded(start, n, now)),
        decreases n,
    {
        if n > 0 {
            self.lemma_singles_commanded(start, n - 1, now);
            if let Ok((next, actions)) = self.singles_commanded(start, n - 1, now) {
                next.lemma_commanded(n - 1, 1, now);
                if let Ok((last, more)) = next.commanded(n - 1, 1, now) {
                    self.lemma_then(next, actions, last, more);
                }
            }
        }
    }

    proof fn lemma_all_commanded(self, now: MonotonicTime)
        requires
            self.groups.len() == self.group_ids.len(),
        ensures
            self.sound(self.all_commanded(now)),
    {
        self.lemma_groups_commanded(self.groups.len() as int, now);
        self.lemma_singles_commanded(
            self.groups_commanded(self.groups.len() as int, now),
            self.ids.len() as int,
            now,
        );
    }

    proof fn lemma_chosen_commanded(self, chosen: Seq<DeviceId>, n: int, now: MonotonicTime)
        ensures
            self.sound(self.chosen_commanded(chosen, n, now)),
        decreases n,
    {
        if n > 0 {
            self.lemma_chosen_commanded(chosen, n - 1, now);
            if let Ok((next, actions)) = self.chosen_commanded(chosen, n - 1, now) {
                if next.knows(chosen[n - 1]) {
                    let i = next.place(chosen[n - 1]);
                    next.lemma_commanded(i, 1, now);
                    if let Ok((last, more)) = next.commanded(i, 1, now) {
                        self.lemma_then(next, actions, last, more);
                    }
                }
            }
        }
    }

    proof fn lemma_released(self, n: int, now: MonotonicTime)
        ensures
            self.sound(self.released(n, now)),
        decreases n,
    {
        if n > 0 {
            self.lemma_released(n - 1, now);
            if let Ok((next, actions)) = self.released(n - 1, now) {
                let entry = self.deferred[n - 1];
                next.lemma_restaged(entry.attempts, now);
                if let Ok((last, more)) = next.restaged(entry.attempts, now) {
                    self.lemma_then(next, actions, last, more);
                }
            }
        }
    }

    proof fn lemma_retried(self, n: int, now: MonotonicTime)
        requires
            self.can_publish(),
            n <= self.ids.len(),
        ensures
            self.sound(self.retried(n, now)),
        decreases n,
    {
        if n > 0 {
            self.lemma_retried(n - 1, now);
            if let Ok((next, actions)) = self.retried(n - 1, now) {
                if self.overdue(n - 1, now) {
                    let pending = self.devices[n - 1].pending->0;
                    let batch = seq![
                        (CommandEntity::Device(self.ids[n - 1]), pending.target),
                    ];
                    let affected = crate::dispatch::sole(
                        self.ids.len(),
                        n - 1,
                        StagedAttempt {
                            target: pending.target,
                            attempts: (pending.attempts + 1) as u8,
                        },
                    );
                    assert(next.ids[n - 1] == self.ids[n - 1]);
                    next.lemma_dispatched(batch, affected, now);
                    if let Ok((last, more)) = next.dispatched(batch, affected, now) {
                        self.lemma_then(next, actions, last, more);
                    }
                }
            }
        }
    }

    /// A step that is sound after some change reaches its addressees in the end.
    proof fn lemma_ends_sound(self, step: Step)
        requires
            self.sound(step),
        ensures
            step matches Ok((next, actions)) ==> next.reaches(actions),
    {
        if let Ok((next, actions)) = step {
            self.lemma_same_reach(next, actions);
        }
    }

    /// Noting the time of an operation does not change what can arrive.
    pub proof fn transactions_reach(self, now: MonotonicTime, step: Step)
        requires
            step matches Ok((next, actions)) ==> next.reaches(actions),
        ensures
            self.transacted(now, step) matches Ok((next, actions)) ==> next.reaches(actions),
    {
        if let Ok((next, actions)) = step {
            let noted = Model { last_time: Some(now), ..next };
            assert forall|g: int| next.all_online(g) == noted.all_online(g) by {
                assert(next.members(g) =~= noted.members(g));
            }
            assert forall|entity: CommandEntity| next.reachable(entity) implies noted.reachable(
                entity,
            ) by {
                if let CommandEntity::Group(id) = entity {
                    let g = choose|g: int|
                        0 <= g < next.group_ids.len() && #[trigger] next.group_ids[g] == id
                            && next.all_online(g);
                    assert(noted.group_ids[g] == id);
                } else if let CommandEntity::Device(id) = entity {
                    let i = choose|i: int|
                        0 <= i < next.ids.len() && #[trigger] next.ids[i] == id && next.online(i);
                    assert(noted.ids[i] == id);
                }
            }
        }
    }

    /// A new target for a device sends commands only where they can arrive.
    pub proof fn desired_reaches(self, i: int, target: LightTarget, now: MonotonicTime)
        ensures
            self.desired(i, target, now) matches Ok((next, actions)) ==> next.reaches(actions),
    {
        let state = self.devices[i];
        let wanted = state.capabilities.degraded(target);
        let next = self.with_device(i, state.desiring(wanted));
        let mask = crate::dispatch::only(self.ids.len(), i);
        let idle = next.without_work(mask);
        let attempts = crate::dispatch::first_attempts(
            next.canceled(mask).update(i, !state.desiring(wanted).in_sync),
        );
        idle.lemma_restaged(attempts, now);
        idle.lemma_ends_sound(idle.restaged(attempts, now));
    }

    /// So does a new target for a group: the group is commanded only when all of its
    /// members are online.
    pub proof fn group_desired_reaches(self, g: int, target: LightTarget, now: MonotonicTime)
        requires
            0 <= g < self.group_ids.len(),
        ensures
            self.group_desired(g, target, now) matches Ok((next, actions)) ==> next.reaches(
                actions,
            ),
    {
        let group = self.groups[g];
        let wanted = group.capabilities.degraded(target);
        let changed = self.changed_members(g, target);
        let next = self.with_group_target(g, target);
        let canceled = next.canceled(changed);
        let idle = next.without_work(changed);
        let attempts = crate::dispatch::first_attempts(crate::dispatch::either(canceled, changed));
        let send = !(group.command_target matches Some(target) && target.same(wanted));
        idle.lemma_restaged(attempts, now);
        idle.lemma_ends_sound(idle.restaged(attempts, now));
        idle.lemma_group_commanded(g, wanted, send, changed, now);
        idle.lemma_ends_sound(idle.group_commanded(g, wanted, send, changed, now));
    }

    /// So does a group that gives up its target.
    pub proof fn group_cleared_reaches(self, g: int, now: MonotonicTime)
        ensures
            self.group_cleared(g, now) matches Ok((next, actions)) ==> next.reaches(actions),
    {
        let group = self.groups[g];
        let next = Model {
            groups: self.groups.update(
                g,
                crate::reconcile::GroupState {
                    logical_desired: None,
                    command_target: None,
                    ..group
                },
            ),
            ..self
        };
        let members = self.members(g);
        let idle = next.without_work(members);
        let attempts = crate::dispatch::first_attempts(
            crate::dispatch::either(next.canceled(members), members),
        );
        idle.lemma_restaged(attempts, now);
        idle.lemma_ends_sound(idle.restaged(attempts, now));
    }

    /// So does a new connection to the broker.
    pub proof fn connected_reaches(self, now: MonotonicTime)
        requires
            self.groups.len() == self.group_ids.len(),
        ensures
            self.connected(now) matches Ok((next, actions)) ==> next.reaches(actions),
    {
        let next = Model { transport: TransportStatus::Connected, ..self };
        next.lemma_all_commanded(now);
        next.lemma_ends_sound(next.all_commanded(now));
        if let Ok((last, actions)) = next.all_commanded(now) {
            last.lemma_both_reach(self.greetings(), actions);
        }
    }

    /// So does word of the bridge.
    pub proof fn bridged_reaches(self, availability: Availability, now: MonotonicTime)
        requires
            self.groups.len() == self.group_ids.len(),
        ensures
            self.bridged(availability, now) matches Ok((next, actions)) ==> next.reaches(actions),
    {
        let next = if availability is Online {
            self
        } else {
            self.idle()
        };
        let next = Model { bridge: availability, ..next };
        next.lemma_all_commanded(now);
        next.lemma_ends_sound(next.all_commanded(now));
    }

    /// So does word of a device.
    pub proof fn made_available_reaches(
        self,
        i: int,
        availability: Availability,
        now: MonotonicTime,
    )
        requires
            0 <= i < self.ids.len(),
        ensures
            self.made_available(i, availability, now) matches Ok((next, actions)) ==> next.reaches(
                actions,
            ),
    {
        let state = self.devices[i];
        let next = self.with_device(
            i,
            crate::reconcile::DeviceState {
                availability,
                pending: if availability is Online {
                    state.pending
                } else {
                    None
                },
                ..state
            },
        );
        let mask = crate::dispatch::only(self.ids.len(), i);
        let idle = next.without_work(mask);
        let attempts = crate::dispatch::first_attempts(next.canceled(mask));
        next.lemma_commanded(i, 1, now);
        next.lemma_ends_sound(next.commanded(i, 1, now));
        idle.lemma_restaged(attempts, now);
        idle.lemma_ends_sound(idle.restaged(attempts, now));
    }

    /// So does a report of a device's state.
    pub proof fn observed_reaches(self, i: int, update: DeviceTarget, now: MonotonicTime)
        ensures
            self.observed(i, update, now) matches Ok((next, actions)) ==> next.reaches(actions),
    {
        if let Ok((next, actions)) = self.observed(i, update, now) {
            if actions.len() > 0 {
                let state = self.devices[i];
                let seen = crate::reconcile::merged(state.observed, update);
                let shown = self.with_device(
                    i,
                    crate::reconcile::DeviceState {
                        observed: Some(seen),
                        in_sync: true,
                        pending: None,
                        ..state
                    },
                );
                let mask = crate::dispatch::only(self.ids.len(), i);
                let idle = shown.without_work(mask);
                let attempts = crate::dispatch::first_attempts(
                    shown.canceled(mask).update(i, false),
                );
                idle.lemma_restaged(attempts, now);
                idle.lemma_ends_sound(idle.restaged(attempts, now));
            }
        }
    }

    /// So does the restart of a device.
    pub proof fn restarted_reaches(self, i: int, now: MonotonicTime)
        ensures
            self.restarted(i, now) matches Ok((next, actions)) ==> next.reaches(actions),
    {
        let state = self.devices[i];
        let next = self.with_device(
            i,
            crate::reconcile::DeviceState {
                observed: None,
                pending: None,
                in_sync: state.desired is None,
                ..state
            },
        );
        let mask = crate::dispatch::only(self.ids.len(), i);
        let idle = next.without_work(mask);
        let attempts = crate::dispatch::first_attempts(next.canceled(mask).update(i, true));
        idle.lemma_restaged(attempts, now);
        idle.lemma_ends_sound(idle.restaged(attempts, now));
        if let Ok((last, actions)) = idle.restaged(attempts, now) {
            last.lemma_both_reach(seq![ReconcileAction::RequestState(self.ids[i])], actions);
        }
    }

    /// So does a refresh.
    pub proof fn refreshed_reaches(self, chosen: Seq<DeviceId>, now: MonotonicTime)
        ensures
            self.refreshed(chosen, now) matches Ok((next, actions)) ==> next.reaches(actions),
    {
        self.lemma_chosen_commanded(chosen, chosen.len() as int, now);
        self.lemma_ends_sound(self.chosen_commanded(chosen, chosen.len() as int, now));
    }

    /// So does what falls due.
    pub proof fn due_reaches(self, now: MonotonicTime)
        ensures
            self.due(now) matches Ok((next, actions)) ==> next.reaches(actions),
    {
        if let Ok(next) = self.swept(self.staged.len() as int, now) {
            if next.can_publish() {
                let n = next.deferred.len() as int;
                next.lemma_released(n, now);
                if let Ok((later, actions)) = next.released(n, now) {
                    later.lemma_retried(later.ids.len() as int, now);
                    if let Ok((last, more)) = later.retried(later.ids.len() as int, now) {
                        next.lemma_then(later, actions, last, more);
                        next.lemma_same_reach(last, actions + more);
                    }
                }
            }
        }
    }
}

} // verus!
