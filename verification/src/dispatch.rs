//! The reconciler as a mathematical machine: what each operation does to it.
use crate::ordered::OrderedKey;
use crate::reconcile::{
    Availability, CommandEntity, DeviceId, DeviceState,
    DispatchAcceptance, DispatchCancellation, DispatchRegistrationOutcome, DispatchToken, EntityId,
    GroupState, PendingCommand, ReconcileAction, ReconcileError, RegisteredDispatchPlan,
    RetryPolicy, StagedAttempt, TransportStatus,
};
use crate::state::MonotonicTime;
use crate::value::{DeviceTarget, LightTarget};
use vstd::prelude::*;

verus! {

/// A batch that waits to be accepted. What it sends is listed by device.
#[verifier::ext_equal]
pub struct StagedView {
    pub token: u64,
    pub affected: Seq<Option<StagedAttempt>>,
    pub plan: Option<RegisteredDispatchPlan>,
    pub acceptance_deadline: MonotonicTime,
}

/// A batch that waits to be tried again. The attempts are listed by device.
#[verifier::ext_equal]
pub struct DeferredView {
    pub sequence: u64,
    pub attempts: Seq<Option<u8>>,
    pub retry_deadline: MonotonicTime,
}

/// Devices, groups and the work under way. Devices and groups are in the order
/// of their names; `group_of` gives the group of each device.
#[verifier::ext_equal]
pub struct Model {
    pub ids: Seq<DeviceId>,
    pub devices: Seq<DeviceState>,
    pub group_of: Seq<Option<usize>>,
    pub group_ids: Seq<EntityId>,
    pub groups: Seq<GroupState>,
    pub transport: TransportStatus,
    pub bridge: Availability,
    pub policy: RetryPolicy,
    pub next_token: u64,
    pub staged: Seq<StagedView>,
    pub next_sequence: u64,
    pub deferred: Seq<DeferredView>,
    pub last_time: Option<MonotonicTime>,
}

/// How a claim of one operation is answered.
pub enum Claim {
    Granted,
    AlreadyAccepted,
    Stale,
    Refused(ReconcileError),
}

/// What a step leads to.
pub type Step = Result<(Model, Seq<ReconcileAction>), ReconcileError>;

/// Nothing is listed.
pub open spec fn unset<T>(entries: Seq<Option<T>>) -> bool {
    forall|i: int| 0 <= i < entries.len() ==> (#[trigger] entries[i]) is None
}

/// Something of `mask` is listed.
pub open spec fn touches<T>(entries: Seq<Option<T>>, mask: Seq<bool>) -> bool {
    exists|i: int| 0 <= i < entries.len() && mask[i] && (#[trigger] entries[i]) is Some
}

/// Some entry is marked.
pub open spec fn any(mask: Seq<bool>) -> bool {
    exists|i: int| 0 <= i < mask.len() && #[trigger] mask[i]
}

/// Only entry `i` of `n` is marked.
pub open spec fn only(n: nat, i: int) -> Seq<bool> {
    Seq::new(n, |j: int| j == i)
}

pub open spec fn without(mask: Seq<bool>, i: int) -> Seq<bool> {
    mask.update(i, false)
}

pub open spec fn either(a: Seq<bool>, b: Seq<bool>) -> Seq<bool> {
    Seq::new(a.len(), |i: int| a[i] || b[i])
}

/// A first attempt for each marked entry.
pub open spec fn first_attempts(mask: Seq<bool>) -> Seq<Option<u8>> {
    Seq::new(
        mask.len(),
        |i: int|
            if mask[i] {
                Some(1u8)
            } else {
                None
            },
    )
}

/// The attempts that a staged batch stands for.
pub open spec fn attempts_of(affected: Seq<Option<StagedAttempt>>) -> Seq<Option<u8>> {
    Seq::new(
        affected.len(),
        |i: int|
            match affected[i] {
                Some(attempt) => Some(attempt.attempts),
                None => None,
            },
    )
}

/// Only entry `i` of `n` is listed.
pub open spec fn sole(n: nat, i: int, attempt: StagedAttempt) -> Seq<Option<StagedAttempt>> {
    Seq::new(
        n,
        |j: int|
            if j == i {
                Some(attempt)
            } else {
                None
            },
    )
}

/// The batches that touch nothing of `mask`.
pub open spec fn staged_outside(staged: Seq<StagedView>, mask: Seq<bool>) -> Seq<StagedView>
    decreases staged.len(),
{
    if staged.len() == 0 {
        Seq::empty()
    } else {
        let rest = staged_outside(staged.drop_last(), mask);
        if touches(staged.last().affected, mask) {
            rest
        } else {
            rest.push(staged.last())
        }
    }
}

/// The deferred batches that touch nothing of `mask`.
pub open spec fn deferred_outside(deferred: Seq<DeferredView>, mask: Seq<bool>) -> Seq<DeferredView>
    decreases deferred.len(),
{
    if deferred.len() == 0 {
        Seq::empty()
    } else {
        let rest = deferred_outside(deferred.drop_last(), mask);
        if touches(deferred.last().attempts, mask) {
            rest
        } else {
            rest.push(deferred.last())
        }
    }
}

/// The commands of one batch.
pub open spec fn commands(
    token: DispatchToken,
    batch: Seq<(CommandEntity, DeviceTarget)>,
) -> Seq<ReconcileAction> {
    Seq::new(
        batch.len(),
        |i: int| ReconcileAction::Command { token, entity: batch[i].0, target: batch[i].1 },
    )
}

/// Position of a token among the staged batches, or their number.
pub open spec fn token_place(staged: Seq<StagedView>, token: DispatchToken) -> int
    decreases staged.len(),
{
    if staged.len() == 0 || staged[0].token == token.value {
        0
    } else {
        1 + token_place(staged.drop_first(), token)
    }
}

impl Model {
    /// Names ascend; all lists agree in length; tokens and sequences ascend and
    /// are below the next ones; attempts stay within the policy; a command is
    /// pending only on a device that is out of sync; the members of a group
    /// that has a target have one too.
    pub open spec fn wf(self) -> bool {
        &&& crate::reconcile::ids_ascend(self.ids)
        &&& self.devices.len() == self.ids.len()
        &&& self.group_of.len() == self.ids.len()
        &&& self.groups.len() == self.group_ids.len()
        &&& self.policy.wf()
        &&& self.groups_wf()
        &&& self.devices_wf()
        &&& self.staged_wf()
        &&& self.deferred_wf()
    }

    pub open spec fn groups_wf(self) -> bool {
        &&& forall|i: int, j: int|
            0 <= i < j < self.group_ids.len() ==> crate::text::before(
                crate::text::bytes_of((#[trigger] self.group_ids[i]).text@),
                crate::text::bytes_of((#[trigger] self.group_ids[j]).text@),
            )
        &&& forall|i: int|
            0 <= i < self.ids.len() ==> ((#[trigger] self.group_of[i]) matches Some(g) ==> {
                &&& g < self.groups.len()
                &&& self.groups[g as int].command_target is Some ==> self.devices[i].desired is Some
            })
    }

    pub open spec fn devices_wf(self) -> bool {
        forall|i: int|
            0 <= i < self.ids.len() ==> ((#[trigger] self.devices[i]).pending matches Some(pending)
                ==> {
                &&& !self.devices[i].in_sync
                &&& 1 <= pending.attempts <= self.policy.max_attempts
            })
    }

    pub open spec fn staged_entry_wf(self, entry: StagedView) -> bool {
        &&& entry.affected.len() == self.ids.len()
        &&& entry.token < self.next_token
        &&& forall|i: int|
            0 <= i < entry.affected.len() ==> ((#[trigger] entry.affected[i]) matches Some(attempt)
                ==> 1 <= attempt.attempts <= self.policy.max_attempts)
        &&& entry.plan matches Some(plan) ==> plan.next_operation_index < plan.operation_count
    }

    pub open spec fn staged_wf(self) -> bool {
        &&& forall|k: int|
            0 <= k < self.staged.len() ==> self.staged_entry_wf(#[trigger] self.staged[k])
        &&& forall|k: int, l: int|
            0 <= k < l < self.staged.len() ==> (#[trigger] self.staged[k]).token < (
            #[trigger] self.staged[l]).token
    }

    pub open spec fn deferred_entry_wf(self, entry: DeferredView) -> bool {
        &&& entry.attempts.len() == self.ids.len()
        &&& entry.sequence < self.next_sequence
        &&& forall|i: int|
            0 <= i < entry.attempts.len() ==> ((#[trigger] entry.attempts[i]) matches Some(attempts)
                ==> 1 <= attempts <= self.policy.max_attempts)
    }

    pub open spec fn deferred_wf(self) -> bool {
        &&& forall|k: int|
            0 <= k < self.deferred.len() ==> self.deferred_entry_wf(#[trigger] self.deferred[k])
        &&& forall|k: int, l: int|
            0 <= k < l < self.deferred.len() ==> (#[trigger] self.deferred[k]).sequence < (
            #[trigger] self.deferred[l]).sequence
    }

    pub open spec fn knows(self, id: DeviceId) -> bool {
        crate::reconcile::id_listed(self.ids, self.ids.len() as int, id)
    }

    /// Position of a known device.
    pub open spec fn place(self, id: DeviceId) -> int {
        choose|i: int| 0 <= i < self.ids.len() && (#[trigger] self.ids[i]).text@ == id.text@
    }

    pub open spec fn knows_group(self, id: EntityId) -> bool {
        exists|g: int| 0 <= g < self.group_ids.len() && (#[trigger] self.group_ids[g]).text@
            == id.text@
    }

    /// Position of a known group.
    pub open spec fn group_place(self, id: EntityId) -> int {
        choose|g: int| 0 <= g < self.group_ids.len() && (#[trigger] self.group_ids[g]).text@
            == id.text@
    }

    /// The devices of group `g`.
    pub open spec fn members(self, g: int) -> Seq<bool> {
        Seq::new(self.ids.len(), |i: int| self.group_of[i] == Some(g as usize))
    }

    pub open spec fn can_publish(self) -> bool {
        self.transport is Connected && self.bridge is Online
    }

    pub open spec fn online(self, i: int) -> bool {
        self.devices[i].availability is Online
    }

    pub open spec fn nothing(self) -> Step {
        Ok((self, Seq::empty()))
    }

    pub open spec fn with_device(self, i: int, state: DeviceState) -> Model {
        Model { devices: self.devices.update(i, state), ..self }
    }

    /// Stages one batch.
    pub open spec fn dispatched(
        self,
        batch: Seq<(CommandEntity, DeviceTarget)>,
        affected: Seq<Option<StagedAttempt>>,
        now: MonotonicTime,
    ) -> Step {
        if batch.len() == 0 || unset(affected) {
            self.nothing()
        } else if self.next_token == u64::MAX {
            Err(ReconcileError::DispatchTokenOverflow)
        } else {
            match self.policy.acceptance_time(now, 0) {
                Err(error) => Err(error),
                Ok(acceptance_deadline) => Ok(
                    (
                        Model {
                            next_token: (self.next_token + 1) as u64,
                            staged: self.staged.push(
                                StagedView {
                                    token: self.next_token,
                                    affected,
                                    plan: None,
                                    acceptance_deadline,
                                },
                            ),
                            ..self
                        },
                        commands(DispatchToken { value: self.next_token }, batch),
                    ),
                ),
            }
        }
    }

    /// What has to be sent to device `i` for it to reach its desired state.
    pub open spec fn outstanding(self, attempts: Seq<Option<u8>>, i: int) -> Option<StagedAttempt> {
        match (attempts[i], self.devices[i].desired) {
            (Some(attempts), Some(target)) => if self.online(i) && !self.devices[i].settled()
                && !crate::reconcile::asks_nothing(target) {
                Some(StagedAttempt { target, attempts })
            } else {
                None
            },
            _ => None,
        }
    }

    /// The commands for the first `n` devices that are outstanding.
    pub open spec fn outstanding_batch(self, attempts: Seq<Option<u8>>, n: int) -> Seq<
        (CommandEntity, DeviceTarget),
    >
        decreases n,
    {
        if n <= 0 {
            Seq::empty()
        } else {
            let rest = self.outstanding_batch(attempts, n - 1);
            match self.outstanding(attempts, n - 1) {
                Some(attempt) => rest.push(
                    (CommandEntity::Device(self.ids[n - 1]), attempt.target),
                ),
                None => rest,
            }
        }
    }

    /// Stages what is outstanding on the listed devices.
    pub open spec fn restaged(self, attempts: Seq<Option<u8>>, now: MonotonicTime) -> Step {
        if !self.can_publish() {
            self.nothing()
        } else {
            self.dispatched(
                self.outstanding_batch(attempts, self.ids.len() as int),
                Seq::new(self.ids.len(), |i: int| self.outstanding(attempts, i)),
                now,
            )
        }
    }

    /// Commands device `i` to its desired state.
    pub open spec fn commanded(self, i: int, attempts: u8, now: MonotonicTime) -> Step {
        match self.devices[i].desired {
            Some(target) => if self.can_publish() && self.online(i) && !crate::reconcile::asks_nothing(target) {
                self.dispatched(
                    seq![(CommandEntity::Device(self.ids[i]), target)],
                    sole(self.ids.len(), i, StagedAttempt { target, attempts }),
                    now,
                )
            } else {
                self.nothing()
            },
            None => self.nothing(),
        }
    }

    /// The devices that share a batch with one of `mask`.
    pub open spec fn canceled(self, mask: Seq<bool>) -> Seq<bool> {
        Seq::new(
            self.ids.len(),
            |i: int|
                {
                    ||| exists|k: int|
                        0 <= k < self.staged.len() && touches(
                            (#[trigger] self.staged[k]).affected,
                            mask,
                        ) && self.staged[k].affected[i] is Some
                    ||| exists|k: int|
                        0 <= k < self.deferred.len() && touches(
                            (#[trigger] self.deferred[k]).attempts,
                            mask,
                        ) && self.deferred[k].attempts[i] is Some
                },
        )
    }

    /// Drops all work that touches one of `mask`.
    pub open spec fn without_work(self, mask: Seq<bool>) -> Model {
        Model {
            staged: staged_outside(self.staged, mask),
            deferred: deferred_outside(self.deferred, mask),
            ..self
        }
    }

    /// Queues attempts to be tried again.
    pub open spec fn postponed(self, attempts: Seq<Option<u8>>, now: MonotonicTime) -> Result<
        Model,
        ReconcileError,
    > {
        if unset(attempts) {
            Ok(self)
        } else {
            match self.policy.failure_time(now) {
                Err(error) => Err(error),
                Ok(retry_deadline) => if self.next_sequence == u64::MAX {
                    Err(ReconcileError::DeferredSequenceOverflow)
                } else {
                    Ok(
                        Model {
                            next_sequence: (self.next_sequence + 1) as u64,
                            deferred: self.deferred.push(
                                DeferredView {
                                    sequence: self.next_sequence,
                                    attempts,
                                    retry_deadline,
                                },
                            ),
                            ..self
                        },
                    )
                },
            }
        }
    }

    /// What device `i` still needs beside a group command (`sent`) or instead
    /// of one.
    pub open spec fn fallback(self, i: int, target: DeviceTarget, sent: bool) -> DeviceTarget {
        let desired = self.devices[i].desired->0;
        if sent {
            crate::reconcile::remainder(desired, target)
        } else {
            desired
        }
    }

    pub open spec fn fallback_sent(
        self,
        i: int,
        target: DeviceTarget,
        sent: bool,
        changed: Seq<bool>,
    ) -> bool {
        !crate::reconcile::asks_nothing(self.fallback(i, target, sent)) && (sent || changed[i])
    }

    /// The single commands to the online ones of `members` among the first `n`
    /// devices.
    pub open spec fn fallback_batch(
        self,
        members: Seq<bool>,
        target: DeviceTarget,
        sent: bool,
        changed: Seq<bool>,
        n: int,
    ) -> Seq<(CommandEntity, DeviceTarget)>
        decreases n,
    {
        if n <= 0 {
            Seq::empty()
        } else {
            let rest = self.fallback_batch(members, target, sent, changed, n - 1);
            if members[n - 1] && self.online(n - 1) && self.fallback_sent(
                n - 1,
                target,
                sent,
                changed,
            ) {
                rest.push(
                    (CommandEntity::Device(self.ids[n - 1]), self.fallback(n - 1, target, sent)),
                )
            } else {
                rest
            }
        }
    }

    /// A group command can stand for its members: it says something and all
    /// of them are online.
    pub open spec fn group_sent(self, members: Seq<bool>, target: DeviceTarget, send: bool) -> bool {
        &&& send
        &&& !crate::reconcile::asks_nothing(target)
        &&& forall|i: int| 0 <= i < members.len() && #[trigger] members[i] ==> self.online(i)
    }

    /// Commands a group, and single members as far as the group command does
    /// not suffice.
    pub open spec fn group_commanded(
        self,
        g: int,
        target: DeviceTarget,
        send: bool,
        changed: Seq<bool>,
        now: MonotonicTime,
    ) -> Step {
        let members = self.members(g);
        let sent = self.group_sent(members, target, send);
        if !self.can_publish() || !(exists|i: int|
            0 <= i < members.len() && #[trigger] members[i] && self.online(i)) {
            self.nothing()
        } else {
            let fallbacks = self.fallback_batch(
                members,
                target,
                sent,
                changed,
                self.ids.len() as int,
            );
            self.dispatched(
                if sent {
                    seq![(CommandEntity::Group(self.group_ids[g]), target)] + fallbacks
                } else {
                    fallbacks
                },
                Seq::new(
                    self.ids.len(),
                    |i: int|
                        if members[i] && self.online(i) && (sent || self.fallback_sent(
                            i,
                            target,
                            sent,
                            changed,
                        )) {
                            Some(
                                StagedAttempt {
                                    target: self.devices[i].desired->0,
                                    attempts: 1u8,
                                },
                            )
                        } else {
                            None
                        },
                ),
                now,
            )
        }
    }

    /// Commands those of the first `n` groups that have a target.
    pub open spec fn groups_commanded(self, n: int, now: MonotonicTime) -> Step
        decreases n,
    {
        if n <= 0 {
            self.nothing()
        } else {
            match self.groups_commanded(n - 1, now) {
                Err(error) => Err(error),
                Ok((next, actions)) => match self.groups[n - 1].command_target {
                    None => Ok((next, actions)),
                    Some(target) => match next.group_commanded(
                        n - 1,
                        target,
                        true,
                        next.members(n - 1),
                        now,
                    ) {
                        Err(error) => Err(error),
                        Ok((last, more)) => Ok((last, actions + more)),
                    },
                },
            }
        }
    }

    /// Device `i` is commanded through its group.
    pub open spec fn grouped(self, i: int) -> bool {
        self.group_of[i] matches Some(g) && self.groups[g as int].command_target is Some
    }

    /// Commands those of the first `n` devices that no group covers, after
    /// `start`.
    pub open spec fn singles_commanded(self, start: Step, n: int, now: MonotonicTime) -> Step
        decreases n,
    {
        if n <= 0 {
            start
        } else {
            match self.singles_commanded(start, n - 1, now) {
                Err(error) => Err(error),
                Ok((next, actions)) => if self.grouped(n - 1) {
                    Ok((next, actions))
                } else {
                    match next.commanded(n - 1, 1, now) {
                        Err(error) => Err(error),
                        Ok((last, more)) => Ok((last, actions + more)),
                    }
                },
            }
        }
    }

    /// Commands everything to its desired state.
    pub open spec fn all_commanded(self, now: MonotonicTime) -> Step {
        if !self.can_publish() {
            self.nothing()
        } else {
            self.singles_commanded(
                self.groups_commanded(self.groups.len() as int, now),
                self.ids.len() as int,
                now,
            )
        }
    }

    /// Commands the first `n` of `chosen` in turn.
    pub open spec fn chosen_commanded(self, chosen: Seq<DeviceId>, n: int, now: MonotonicTime) -> Step
        decreases n,
    {
        if n <= 0 {
            self.nothing()
        } else {
            match self.chosen_commanded(chosen, n - 1, now) {
                Err(error) => Err(error),
                Ok((next, actions)) => if !next.knows(chosen[n - 1]) {
                    Err(ReconcileError::UnknownDevice(chosen[n - 1]))
                } else {
                    match next.commanded(next.place(chosen[n - 1]), 1, now) {
                        Err(error) => Err(error),
                        Ok((last, more)) => Ok((last, actions + more)),
                    }
                },
            }
        }
    }

    /// Reissues the desired state of the `chosen` devices.
    pub open spec fn refreshed(self, chosen: Seq<DeviceId>, now: MonotonicTime) -> Step {
        if !self.can_publish() {
            self.nothing()
        } else {
            self.chosen_commanded(chosen, chosen.len() as int, now)
        }
    }

    /// All work and knowledge of availability is gone.
    pub open spec fn idle(self) -> Model {
        Model {
            devices: Seq::new(
                self.devices.len(),
                |i: int|
                    DeviceState {
                        availability: Availability::Unknown,
                        pending: None,
                        ..self.devices[i]
                    },
            ),
            staged: Seq::empty(),
            deferred: Seq::empty(),
            ..self
        }
    }

    pub open spec fn disconnected(self) -> Model {
        Model {
            transport: TransportStatus::Disconnected,
            bridge: Availability::Unknown,
            ..self.idle()
        }
    }

    /// Requests for the state of each device, after the subscription.
    pub open spec fn greetings(self) -> Seq<ReconcileAction> {
        seq![ReconcileAction::Resubscribe] + Seq::new(
            self.ids.len(),
            |i: int| ReconcileAction::RequestState(self.ids[i]),
        )
    }

    pub open spec fn connected(self, now: MonotonicTime) -> Step {
        if self.transport is Connected {
            self.nothing()
        } else {
            let next = Model { transport: TransportStatus::Connected, ..self };
            match next.all_commanded(now) {
                Err(error) => Err(error),
                Ok((last, actions)) => Ok((last, self.greetings() + actions)),
            }
        }
    }

    pub open spec fn bridged(self, availability: Availability, now: MonotonicTime) -> Step {
        let next = if availability is Online {
            self
        } else {
            self.idle()
        };
        let next = Model { bridge: availability, ..next };
        if !(self.bridge is Online) && availability is Online {
            next.all_commanded(now)
        } else {
            next.nothing()
        }
    }

    /// Device `i` becomes available or not.
    pub open spec fn made_available(
        self,
        i: int,
        availability: Availability,
        now: MonotonicTime,
    ) -> Step {
        let state = self.devices[i];
        let next = self.with_device(
            i,
            DeviceState {
                availability,
                pending: if availability is Online {
                    state.pending
                } else {
                    None
                },
                ..state
            },
        );
        if availability is Online {
            if state.availability is Online {
                next.nothing()
            } else {
                next.commanded(i, 1, now)
            }
        } else {
            let mask = only(self.ids.len(), i);
            next.without_work(mask).restaged(first_attempts(next.canceled(mask)), now)
        }
    }

    /// `target` becomes the desired state of device `i`.
    pub open spec fn desired(self, i: int, target: LightTarget, now: MonotonicTime) -> Step {
        let state = self.devices[i];
        let wanted = state.capabilities.degraded(target);
        if state.desires(wanted) {
            self.nothing()
        } else {
            let next = self.with_device(i, state.desiring(wanted));
            let mask = only(self.ids.len(), i);
            let canceled = next.canceled(mask);
            next.without_work(mask).restaged(
                first_attempts(
                    canceled.update(i, !state.desiring(wanted).in_sync),
                ),
                now,
            )
        }
    }

    /// The members of group `g` whose desired state `target` changes.
    pub open spec fn changed_members(self, g: int, target: LightTarget) -> Seq<bool> {
        Seq::new(
            self.ids.len(),
            |i: int|
                self.members(g)[i] && !self.devices[i].desires(
                    self.devices[i].capabilities.degraded(target),
                ),
        )
    }

    /// `target` is recorded as desired by group `g` and its members.
    pub open spec fn with_group_target(self, g: int, target: LightTarget) -> Model {
        let group = self.groups[g];
        let changed = self.changed_members(g, target);
        Model {
            groups: self.groups.update(
                g,
                GroupState {
                    logical_desired: Some(target),
                    command_target: Some(group.capabilities.degraded(target)),
                    ..group
                },
            ),
            devices: Seq::new(
                self.devices.len(),
                |i: int|
                    if changed[i] {
                        self.devices[i].desiring(self.devices[i].capabilities.degraded(target))
                    } else {
                        self.devices[i]
                    },
            ),
            ..self
        }
    }

    /// `target` becomes the desired state of group `g`.
    pub open spec fn group_desired(self, g: int, target: LightTarget, now: MonotonicTime) -> Step {
        let group = self.groups[g];
        let wanted = group.capabilities.degraded(target);
        if group.logical_desired matches Some(desired) && desired.same(target) {
            self.nothing()
        } else {
            let changed = self.changed_members(g, target);
            let next = self.with_group_target(g, target);
            let canceled = next.canceled(changed);
            let idle = next.without_work(changed);
            if any(canceled) {
                idle.restaged(first_attempts(either(canceled, changed)), now)
            } else {
                idle.group_commanded(
                    g,
                    wanted,
                    !(group.command_target matches Some(target) && target.same(wanted)),
                    changed,
                    now,
                )
            }
        }
    }

    /// Group `g` no longer has a target of its own.
    pub open spec fn group_cleared(self, g: int, now: MonotonicTime) -> Step {
        let group = self.groups[g];
        if group.logical_desired is None && group.command_target is None {
            self.nothing()
        } else {
            let next = Model {
                groups: self.groups.update(
                    g,
                    GroupState { logical_desired: None, command_target: None, ..group },
                ),
                ..self
            };
            let members = self.members(g);
            next.without_work(members).restaged(
                first_attempts(either(next.canceled(members), members)),
                now,
            )
        }
    }

    /// `update` is observed on device `i`.
    pub open spec fn observed(self, i: int, update: DeviceTarget, now: MonotonicTime) -> Step {
        let state = self.devices[i];
        let seen = crate::reconcile::merged(state.observed, update);
        let in_sync = crate::reconcile::synchronized(
            state.desired,
            Some(seen),
            state.color_policy,
        );
        let next = self.with_device(
            i,
            DeviceState {
                observed: Some(seen),
                in_sync,
                pending: if in_sync {
                    None
                } else {
                    state.pending
                },
                ..state
            },
        );
        if !in_sync {
            next.nothing()
        } else {
            let mask = only(self.ids.len(), i);
            next.without_work(mask).restaged(
                first_attempts(next.canceled(mask).update(i, false)),
                now,
            )
        }
    }

    /// Device `i` has started anew.
    pub open spec fn restarted(self, i: int, now: MonotonicTime) -> Step {
        let state = self.devices[i];
        let next = self.with_device(
            i,
            DeviceState {
                observed: None,
                pending: None,
                in_sync: state.desired is None,
                ..state
            },
        );
        let mask = only(self.ids.len(), i);
        let idle = next.without_work(mask);
        if !(self.transport is Connected) {
            idle.nothing()
        } else {
            match idle.restaged(first_attempts(next.canceled(mask).update(i, true)), now) {
                Err(error) => Err(error),
                Ok((last, actions)) => Ok(
                    (last, seq![ReconcileAction::RequestState(self.ids[i])] + actions),
                ),
            }
        }
    }

    /// Defers those of the first `n` staged batches that were not accepted in
    /// time, and keeps the others.
    pub open spec fn swept(self, n: int, now: MonotonicTime) -> Result<Model, ReconcileError>
        decreases n,
    {
        if n <= 0 {
            Ok(Model { staged: Seq::empty(), ..self })
        } else {
            match self.swept(n - 1, now) {
                Err(error) => Err(error),
                Ok(next) => {
                    let entry = self.staged[n - 1];
                    if entry.acceptance_deadline.value.at_most(now.value) {
                        next.postponed(attempts_of(entry.affected), now)
                    } else {
                        Ok(Model { staged: next.staged.push(entry), ..next })
                    }
                },
            }
        }
    }

    /// Stages those of the first `n` deferred batches that are due, and keeps
    /// the others.
    pub open spec fn released(self, n: int, now: MonotonicTime) -> Step
        decreases n,
    {
        if n <= 0 {
            Ok((Model { deferred: Seq::empty(), ..self }, Seq::empty()))
        } else {
            match self.released(n - 1, now) {
                Err(error) => Err(error),
                Ok((next, actions)) => {
                    let entry = self.deferred[n - 1];
                    if entry.retry_deadline.value.at_most(now.value) {
                        match next.restaged(entry.attempts, now) {
                            Err(error) => Err(error),
                            Ok((last, more)) => Ok((last, actions + more)),
                        }
                    } else {
                        Ok((Model { deferred: next.deferred.push(entry), ..next }, actions))
                    }
                },
            }
        }
    }

    /// Device `i` takes part in a batch.
    pub open spec fn scheduled(self, i: int) -> bool {
        ||| exists|k: int|
            0 <= k < self.staged.len() && (#[trigger] self.staged[k]).affected[i] is Some
        ||| exists|k: int|
            0 <= k < self.deferred.len() && (#[trigger] self.deferred[k]).attempts[i] is Some
    }

    /// The command pending on device `i` has to be sent again.
    pub open spec fn overdue(self, i: int, now: MonotonicTime) -> bool {
        &&& self.devices[i].pending matches Some(pending)
        &&& pending.deadline.value.at_most(now.value)
        &&& self.online(i)
        &&& pending.attempts < self.policy.max_attempts
        &&& !self.scheduled(i)
    }

    /// Sends the overdue commands of the first `n` devices again.
    pub open spec fn retried(self, n: int, now: MonotonicTime) -> Step
        decreases n,
    {
        if n <= 0 {
            self.nothing()
        } else {
            match self.retried(n - 1, now) {
                Err(error) => Err(error),
                Ok((next, actions)) => if !self.overdue(n - 1, now) {
                    Ok((next, actions))
                } else {
                    let pending = self.devices[n - 1].pending->0;
                    match next.dispatched(
                        seq![(CommandEntity::Device(self.ids[n - 1]), pending.target)],
                        sole(
                            self.ids.len(),
                            n - 1,
                            StagedAttempt {
                                target: pending.target,
                                attempts: (pending.attempts + 1) as u8,
                            },
                        ),
                        now,
                    ) {
                        Err(error) => Err(error),
                        Ok((last, more)) => Ok((last, actions + more)),
                    }
                },
            }
        }
    }

    /// Sweeps, releases and retries.
    pub open spec fn due(self, now: MonotonicTime) -> Step {
        match self.swept(self.staged.len() as int, now) {
            Err(error) => Err(error),
            Ok(next) => if !next.can_publish() {
                next.nothing()
            } else {
                match next.released(next.deferred.len() as int, now) {
                    Err(error) => Err(error),
                    Ok((later, actions)) => match later.retried(later.ids.len() as int, now) {
                        Err(error) => Err(error),
                        Ok((last, more)) => Ok((last, actions + more)),
                    },
                }
            },
        }
    }

    /// The clock has gone back since the last operation.
    pub open spec fn regressed(self, now: MonotonicTime) -> bool {
        self.last_time matches Some(previous) && now.value.less(previous.value)
    }

    /// A step that takes place at `now`, or fails as a whole.
    pub open spec fn transacted(self, now: MonotonicTime, step: Step) -> Step {
        if self.regressed(now) {
            Err(ReconcileError::MonotonicClockRegressed)
        } else {
            match step {
                Err(error) => Err(error),
                Ok((next, actions)) => Ok((Model { last_time: Some(now), ..next }, actions)),
            }
        }
    }

    /// The step for a device, if it is known.
    pub open spec fn of_device(self, id: DeviceId, step: Step) -> Step {
        if self.knows(id) {
            step
        } else {
            Err(ReconcileError::UnknownDevice(id))
        }
    }

    pub open spec fn of_group(self, id: EntityId, step: Step) -> Step {
        if self.knows_group(id) {
            step
        } else {
            Err(ReconcileError::UnknownGroup(id))
        }
    }

    pub open spec fn has_token(self, token: DispatchToken) -> bool {
        token_place(self.staged, token) < self.staged.len()
    }

    pub open spec fn with_staged(self, k: int, entry: StagedView) -> Model {
        Model { staged: self.staged.update(k, entry), ..self }
    }

    /// Registers the plan of a staged batch.
    pub open spec fn registered(
        self,
        token: DispatchToken,
        epoch: MonotonicTime,
        operation_count: usize,
        max_offset_ms: u64,
    ) -> Result<(Model, DispatchRegistrationOutcome), ReconcileError> {
        let k = token_place(self.staged, token);
        let entry = self.staged[k];
        if operation_count == 0 {
            Err(ReconcileError::InvalidDispatchOperationCount)
        } else {
            match self.policy.acceptance_time(epoch, max_offset_ms) {
                Err(error) => Err(error),
                Ok(deadline) => match entry.plan {
                    None => Ok(
                        (
                            self.with_staged(
                                k,
                                StagedView {
                                    plan: Some(
                                        RegisteredDispatchPlan {
                                            epoch,
                                            operation_count,
                                            max_offset_ms,
                                            next_operation_index: 0,
                                        },
                                    ),
                                    acceptance_deadline: if entry.acceptance_deadline.value.less(
                                        deadline.value,
                                    ) {
                                        deadline
                                    } else {
                                        entry.acceptance_deadline
                                    },
                                    ..entry
                                },
                            ),
                            DispatchRegistrationOutcome::Registered,
                        ),
                    ),
                    Some(plan) => if plan.epoch.value.same(epoch.value) && plan.operation_count
                        == operation_count && plan.max_offset_ms == max_offset_ms {
                        Ok((self, DispatchRegistrationOutcome::AlreadyRegistered))
                    } else {
                        Err(ReconcileError::DispatchPlanMismatch(token))
                    },
                },
            }
        }
    }

    /// Why operation `index` of `token` is not the one to be completed next.
    pub open spec fn claim_fault(self, token: DispatchToken, index: usize) -> Option<
        ReconcileError,
    > {
        if !self.has_token(token) {
            Some(ReconcileError::UnknownDispatchToken(token))
        } else {
            match self.staged[token_place(self.staged, token)].plan {
                None => Some(ReconcileError::UnregisteredDispatchPlan(token)),
                Some(plan) => if plan.next_operation_index != index {
                    Some(
                        ReconcileError::UnexpectedDispatchOperation {
                            expected: plan.next_operation_index,
                            actual: index,
                            operation_count: plan.operation_count,
                        },
                    )
                } else {
                    None
                },
            }
        }
    }

    /// The answer to a claim of operation `index` of `token`.
    pub open spec fn claim(self, token: DispatchToken, index: usize) -> Claim {
        if !self.has_token(token) {
            Claim::Stale
        } else {
            match self.staged[token_place(self.staged, token)].plan {
                None => Claim::Refused(ReconcileError::UnregisteredDispatchPlan(token)),
                Some(plan) => if index < plan.next_operation_index {
                    Claim::AlreadyAccepted
                } else if index != plan.next_operation_index || index >= plan.operation_count {
                    Claim::Refused(
                        ReconcileError::UnexpectedDispatchOperation {
                            expected: plan.next_operation_index,
                            actual: index,
                            operation_count: plan.operation_count,
                        },
                    )
                } else {
                    Claim::Granted
                },
            }
        }
    }

    /// The devices of an accepted batch wait to be observed.
    pub open spec fn sent(self, affected: Seq<Option<StagedAttempt>>, now: MonotonicTime) -> Seq<
        DeviceState,
    > {
        Seq::new(
            self.devices.len(),
            |i: int|
                match affected[i] {
                    None => self.devices[i],
                    Some(attempt) => DeviceState {
                        last_command: Some(attempt.target),
                        in_sync: self.devices[i].settled(),
                        pending: if self.devices[i].settled() {
                            None
                        } else {
                            Some(
                                PendingCommand {
                                    target: attempt.target,
                                    deadline: self.policy.correlation_time(
                                        now,
                                        attempt.target.transition_ms,
                                    ),
                                    attempts: attempt.attempts,
                                },
                            )
                        },
                        ..self.devices[i]
                    },
                },
        )
    }

    /// Operation `index` of `token` was accepted by the transport.
    pub open spec fn accepted(self, token: DispatchToken, index: usize, now: MonotonicTime) -> Result<
        (Model, DispatchAcceptance),
        ReconcileError,
    > {
        match self.claim_fault(token, index) {
            Some(error) => Err(error),
            None => {
                let k = token_place(self.staged, token);
                let entry = self.staged[k];
                let plan = entry.plan->0;
                let remaining = (plan.operation_count - plan.next_operation_index - 1) as usize;
                if remaining != 0 {
                    Ok(
                        (
                            self.with_staged(
                                k,
                                StagedView {
                                    plan: Some(
                                        RegisteredDispatchPlan {
                                            next_operation_index: (plan.next_operation_index
                                                + 1) as usize,
                                            ..plan
                                        },
                                    ),
                                    ..entry
                                },
                            ),
                            DispatchAcceptance::OperationAccepted { remaining },
                        ),
                    )
                } else {
                    Ok(
                        (
                            Model {
                                staged: self.staged.remove(k),
                                devices: self.sent(entry.affected, now),
                                ..self
                            },
                            DispatchAcceptance::BatchAccepted,
                        ),
                    )
                }
            },
        }
    }

    /// Operation `index` of `token` failed for now.
    pub open spec fn failed(self, token: DispatchToken, index: usize, now: MonotonicTime) -> Result<
        (Model, ()),
        ReconcileError,
    > {
        match self.claim_fault(token, index) {
            Some(error) => Err(error),
            None => {
                let k = token_place(self.staged, token);
                let next = Model { staged: self.staged.remove(k), ..self };
                match next.postponed(attempts_of(self.staged[k].affected), now) {
                    Err(error) => Err(error),
                    Ok(last) => Ok((last, ())),
                }
            },
        }
    }

    /// The devices once those of a batch wait for no answer.
    pub open spec fn unawaited(self, affected: Seq<Option<StagedAttempt>>) -> Seq<DeviceState> {
        Seq::new(
            self.devices.len(),
            |i: int|
                match affected[i] {
                    None => self.devices[i],
                    Some(_) => DeviceState { pending: None, ..self.devices[i] },
                },
        )
    }

    /// The batch at position `k` is given up: its devices are not tried again.
    pub open spec fn without_batch(self, k: int) -> Model {
        Model {
            staged: self.staged.remove(k),
            devices: self.unawaited(self.staged[k].affected),
            ..self
        }
    }

    /// Operation `index` of `token` failed for good.
    pub open spec fn abandoned(self, token: DispatchToken, index: usize) -> Result<
        (Model, ()),
        ReconcileError,
    > {
        match self.claim_fault(token, index) {
            Some(error) => Err(error),
            None => Ok((self.without_batch(token_place(self.staged, token)), ())),
        }
    }

    /// The batch of `token` is dropped.
    pub open spec fn dropped(self, token: DispatchToken) -> (Model, DispatchCancellation) {
        if self.has_token(token) {
            (
                self.without_batch(token_place(self.staged, token)),
                DispatchCancellation::Cancelled,
            )
        } else {
            (self, DispatchCancellation::Stale)
        }
    }

    /// As `transacted`, for a step with another result.
    pub open spec fn completed<T>(
        self,
        now: MonotonicTime,
        step: Result<(Model, T), ReconcileError>,
    ) -> Result<(Model, T), ReconcileError> {
        if self.regressed(now) {
            Err(ReconcileError::MonotonicClockRegressed)
        } else {
            match step {
                Err(error) => Err(error),
                Ok((next, value)) => Ok((Model { last_time: Some(now), ..next }, value)),
            }
        }
    }
}

/// Every listed attempt stays within `max`.
pub open spec fn staged_within(affected: Seq<Option<StagedAttempt>>, max: u8) -> bool {
    forall|i: int|
        0 <= i < affected.len() ==> ((#[trigger] affected[i]) matches Some(attempt) ==> 1
            <= attempt.attempts <= max)
}

pub open spec fn attempts_within(attempts: Seq<Option<u8>>, max: u8) -> bool {
    forall|i: int|
        0 <= i < attempts.len() ==> ((#[trigger] attempts[i]) matches Some(count) ==> 1 <= count
            <= max)
}

pub(crate) proof fn lemma_staged_outside(staged: Seq<StagedView>, mask: Seq<bool>)
    ensures
        forall|k: int|
            0 <= k < staged_outside(staged, mask).len() ==> staged.contains(
                #[trigger] staged_outside(staged, mask)[k],
            ),
        (forall|k: int, l: int|
            0 <= k < l < staged.len() ==> (#[trigger] staged[k]).token < (
            #[trigger] staged[l]).token) ==> (forall|k: int, l: int|
            0 <= k < l < staged_outside(staged, mask).len() ==> (#[trigger] staged_outside(
                staged,
                mask,
            )[k]).token < (#[trigger] staged_outside(staged, mask)[l]).token),
    decreases staged.len(),
{
    if staged.len() > 0 {
        let shorter = staged.drop_last();
        lemma_staged_outside(shorter, mask);
        let rest = staged_outside(shorter, mask);
        let all = staged_outside(staged, mask);
        assert forall|k: int| 0 <= k < all.len() implies staged.contains(#[trigger] all[k]) by {
            if k < rest.len() {
                assert(shorter.contains(rest[k]));
                let j = shorter.index_of(rest[k]);
                assert(staged[j] == all[k]);
            } else {
                assert(staged[staged.len() - 1] == all[k]);
            }
        }
        if forall|k: int, l: int|
            0 <= k < l < staged.len() ==> (#[trigger] staged[k]).token < (
            #[trigger] staged[l]).token {
            assert forall|k: int, l: int| 0 <= k < l < all.len() implies (
            #[trigger] all[k]).token < (#[trigger] all[l]).token by {
                if l < rest.len() {
                    assert(rest[k].token < rest[l].token);
                } else {
                    assert(shorter.contains(rest[k]));
                    let j = shorter.index_of(rest[k]);
                    assert(staged[j] == all[k]);
                    assert(staged[staged.len() - 1] == all[l]);
                }
            }
        }
    }
}

pub(crate) proof fn lemma_deferred_outside(deferred: Seq<DeferredView>, mask: Seq<bool>)
    ensures
        forall|k: int|
            0 <= k < deferred_outside(deferred, mask).len() ==> deferred.contains(
                #[trigger] deferred_outside(deferred, mask)[k],
            ),
        (forall|k: int, l: int|
            0 <= k < l < deferred.len() ==> (#[trigger] deferred[k]).sequence < (
            #[trigger] deferred[l]).sequence) ==> (forall|k: int, l: int|
            0 <= k < l < deferred_outside(deferred, mask).len() ==> (#[trigger] deferred_outside(
                deferred,
                mask,
            )[k]).sequence < (#[trigger] deferred_outside(deferred, mask)[l]).sequence),
    decreases deferred.len(),
{
    if deferred.len() > 0 {
        let shorter = deferred.drop_last();
        lemma_deferred_outside(shorter, mask);
        let rest = deferred_outside(shorter, mask);
        let all = deferred_outside(deferred, mask);
        assert forall|k: int| 0 <= k < all.len() implies deferred.contains(#[trigger] all[k]) by {
            if k < rest.len() {
                assert(shorter.contains(rest[k]));
                let j = shorter.index_of(rest[k]);
                assert(deferred[j] == all[k]);
            } else {
                assert(deferred[deferred.len() - 1] == all[k]);
            }
        }
        if forall|k: int, l: int|
            0 <= k < l < deferred.len() ==> (#[trigger] deferred[k]).sequence < (
            #[trigger] deferred[l]).sequence {
            assert forall|k: int, l: int| 0 <= k < l < all.len() implies (
            #[trigger] all[k]).sequence < (#[trigger] all[l]).sequence by {
                if l < rest.len() {
                    assert(rest[k].sequence < rest[l].sequence);
                } else {
                    assert(shorter.contains(rest[k]));
                    let j = shorter.index_of(rest[k]);
                    assert(deferred[j] == all[k]);
                    assert(deferred[deferred.len() - 1] == all[l]);
                }
            }
        }
    }
}

impl Model {
    /// Only the work under way may differ.
    pub open spec fn same_base(self, other: Model) -> bool {
        &&& self.ids == other.ids
        &&& self.devices == other.devices
        &&& self.group_of == other.group_of
        &&& self.group_ids == other.group_ids
        &&& self.groups == other.groups
        &&& self.transport == other.transport
        &&& self.bridge == other.bridge
        &&& self.policy == other.policy
        &&& self.last_time == other.last_time
    }

    /// Staging a batch keeps the invariant and changes only what is staged.
    pub proof fn dispatched_keeps(
        self,
        batch: Seq<(CommandEntity, DeviceTarget)>,
        affected: Seq<Option<StagedAttempt>>,
        now: MonotonicTime,
    )
        requires
            self.wf(),
            affected.len() == self.ids.len(),
            staged_within(affected, self.policy.max_attempts),
        ensures
            self.dispatched(batch, affected, now) matches Ok((next, _)) ==> {
                &&& next.wf()
                &&& next.same_base(self)
                &&& next.deferred == self.deferred
                &&& next.next_sequence == self.next_sequence
            },
    {
        if let Ok((next, _)) = self.dispatched(batch, affected, now) {
            if next.staged.len() > self.staged.len() {
                assert forall|k: int| 0 <= k < next.staged.len() implies next.staged_entry_wf(
                    #[trigger] next.staged[k],
                ) by {
                    if k < self.staged.len() {
                        assert(self.staged_entry_wf(self.staged[k]));
                    }
                }
                assert forall|k: int, l: int| 0 <= k < l < next.staged.len() implies (
                #[trigger] next.staged[k]).token < (#[trigger] next.staged[l]).token by {
                    assert(self.staged_entry_wf(self.staged[k]));
                }
                assert forall|k: int| 0 <= k < next.deferred.len() implies next.deferred_entry_wf(
                    #[trigger] next.deferred[k],
                ) by {
                    assert(self.deferred_entry_wf(self.deferred[k]));
                }
            }
        }
    }

    pub proof fn restaged_keeps(self, attempts: Seq<Option<u8>>, now: MonotonicTime)
        requires
            self.wf(),
            attempts.len() == self.ids.len(),
            attempts_within(attempts, self.policy.max_attempts),
        ensures
            self.restaged(attempts, now) matches Ok((next, _)) ==> {
                &&& next.wf()
                &&& next.same_base(self)
                &&& next.deferred == self.deferred
                &&& next.next_sequence == self.next_sequence
            },
    {
        let affected = Seq::new(self.ids.len(), |i: int| self.outstanding(attempts, i));
        assert forall|i: int| 0 <= i < affected.len() implies ((#[trigger] affected[i]) matches Some(
            attempt,
        ) ==> 1 <= attempt.attempts <= self.policy.max_attempts) by {
            assert(attempts[i] is Some ==> 1 <= attempts[i]->0 <= self.policy.max_attempts);
        }
        self.dispatched_keeps(
            self.outstanding_batch(attempts, self.ids.len() as int),
            affected,
            now,
        );
    }

    pub proof fn commanded_keeps(self, i: int, attempts: u8, now: MonotonicTime)
        requires
            self.wf(),
            1 <= attempts <= self.policy.max_attempts,
        ensures
            self.commanded(i, attempts, now) matches Ok((next, _)) ==> {
                &&& next.wf()
                &&& next.same_base(self)
                &&& next.deferred == self.deferred
                &&& next.next_sequence == self.next_sequence
            },
    {
        if let Some(target) = self.devices[i].desired {
            self.dispatched_keeps(
                seq![(CommandEntity::Device(self.ids[i]), target)],
                sole(self.ids.len(), i, StagedAttempt { target, attempts }),
                now,
            );
        }
    }

    /// Dropping work keeps the invariant.
    pub proof fn without_work_keeps(self, mask: Seq<bool>)
        requires
            self.wf(),
        ensures
            self.without_work(mask).wf(),
            self.without_work(mask).same_base(self),
    {
        let next = self.without_work(mask);
        lemma_staged_outside(self.staged, mask);
        lemma_deferred_outside(self.deferred, mask);
        assert forall|k: int| 0 <= k < next.staged.len() implies next.staged_entry_wf(
            #[trigger] next.staged[k],
        ) by {
            assert(self.staged.contains(next.staged[k]));
            assert(self.staged_entry_wf(self.staged[self.staged.index_of(next.staged[k])]));
        }
        assert forall|k: int| 0 <= k < next.deferred.len() implies next.deferred_entry_wf(
            #[trigger] next.deferred[k],
        ) by {
            assert(self.deferred.contains(next.deferred[k]));
            assert(self.deferred_entry_wf(
                self.deferred[self.deferred.index_of(next.deferred[k])],
            ));
        }
    }

    pub proof fn postponed_keeps(self, attempts: Seq<Option<u8>>, now: MonotonicTime)
        requires
            self.wf(),
            attempts.len() == self.ids.len(),
            attempts_within(attempts, self.policy.max_attempts),
        ensures
            self.postponed(attempts, now) matches Ok(next) ==> {
                &&& next.wf()
                &&& next.same_base(self)
                &&& next.staged == self.staged
                &&& next.next_token == self.next_token
            },
    {
        if let Ok(next) = self.postponed(attempts, now) {
            if next.deferred.len() > self.deferred.len() {
                assert forall|k: int| 0 <= k < next.deferred.len() implies next.deferred_entry_wf(
                    #[trigger] next.deferred[k],
                ) by {
                    if k < self.deferred.len() {
                        assert(self.deferred_entry_wf(self.deferred[k]));
                    }
                }
                assert forall|k: int, l: int| 0 <= k < l < next.deferred.len() implies (
                #[trigger] next.deferred[k]).sequence < (#[trigger] next.deferred[l]).sequence by {
                    assert(self.deferred_entry_wf(self.deferred[k]));
                }
                assert forall|k: int| 0 <= k < next.staged.len() implies next.staged_entry_wf(
                    #[trigger] next.staged[k],
                ) by {
                    assert(self.staged_entry_wf(self.staged[k]));
                }
            }
        }
    }

    pub proof fn group_commanded_keeps(
        self,
        g: int,
        target: DeviceTarget,
        send: bool,
        changed: Seq<bool>,
        now: MonotonicTime,
    )
        requires
            self.wf(),
        ensures
            self.group_commanded(g, target, send, changed, now) matches Ok((next, _)) ==> {
                &&& next.wf()
                &&& next.same_base(self)
                &&& next.deferred == self.deferred
                &&& next.next_sequence == self.next_sequence
            },
    {
        let members = self.members(g);
        let sent = self.group_sent(members, target, send);
        let fallbacks = self.fallback_batch(members, target, sent, changed, self.ids.len() as int);
        self.dispatched_keeps(
            if sent {
                seq![(CommandEntity::Group(self.group_ids[g]), target)] + fallbacks
            } else {
                fallbacks
            },
            Seq::new(
                self.ids.len(),
                |i: int|
                    if members[i] && self.online(i) && (sent || self.fallback_sent(
                        i,
                        target,
                        sent,
                        changed,
                    )) {
                        Some(
                            StagedAttempt { target: self.devices[i].desired->0, attempts: 1u8 },
                        )
                    } else {
                        None
                    },
            ),
            now,
        );
    }

    pub proof fn groups_commanded_keeps(self, n: int, now: MonotonicTime)
        requires
            self.wf(),
        ensures
            self.groups_commanded(n, now) matches Ok((next, _)) ==> {
                &&& next.wf()
                &&& next.same_base(self)
                &&& next.deferred == self.deferred
                &&& next.next_sequence == self.next_sequence
            },
        decreases n,
    {
        if n > 0 {
            self.groups_commanded_keeps(n - 1, now);
            if let Ok((next, _)) = self.groups_commanded(n - 1, now) {
                if let Some(target) = self.groups[n - 1].command_target {
                    next.group_commanded_keeps(n - 1, target, true, next.members(n - 1), now);
                }
            }
        }
    }

    pub proof fn singles_commanded_keeps(self, n: int, now: MonotonicTime)
        requires
            self.wf(),
        ensures
            self.singles_commanded(
                self.groups_commanded(self.groups.len() as int, now),
                n,
                now,
            ) matches Ok((next, _)) ==> {
                &&& next.wf()
                &&& next.same_base(self)
                &&& next.deferred == self.deferred
                &&& next.next_sequence == self.next_sequence
            },
        decreases n,
    {
        let start = self.groups_commanded(self.groups.len() as int, now);
        if n <= 0 {
            self.groups_commanded_keeps(self.groups.len() as int, now);
        } else {
            self.singles_commanded_keeps(n - 1, now);
            if let Ok((next, _)) = self.singles_commanded(start, n - 1, now) {
                next.commanded_keeps(n - 1, 1, now);
            }
        }
    }

    /// Commanding everything keeps the invariant and changes only what is
    /// staged.
    pub proof fn all_commanded_keeps(self, now: MonotonicTime)
        requires
            self.wf(),
        ensures
            self.all_commanded(now) matches Ok((next, _)) ==> {
                &&& next.wf()
                &&& next.same_base(self)
                &&& next.deferred == self.deferred
                &&& next.next_sequence == self.next_sequence
            },
    {
        self.singles_commanded_keeps(self.ids.len() as int, now);
    }

    pub proof fn chosen_commanded_keeps(self, chosen: Seq<DeviceId>, n: int, now: MonotonicTime)
        requires
            self.wf(),
        ensures
            self.chosen_commanded(chosen, n, now) matches Ok((next, _)) ==> {
                &&& next.wf()
                &&& next.same_base(self)
                &&& next.deferred == self.deferred
                &&& next.next_sequence == self.next_sequence
            },
        decreases n,
    {
        if n > 0 {
            self.chosen_commanded_keeps(chosen, n - 1, now);
            if let Ok((next, _)) = self.chosen_commanded(chosen, n - 1, now) {
                next.commanded_keeps(next.place(chosen[n - 1]), 1, now);
            }
        }
    }

    /// A batch that is not accepted in time is not lost: sweeping keeps the
    /// invariant.
    pub proof fn swept_keeps(self, n: int, now: MonotonicTime)
        requires
            self.wf(),
            n <= self.staged.len(),
        ensures
            self.swept(n, now) matches Ok(next) ==> {
                &&& next.wf()
                &&& next.same_base(self)
                &&& next.next_token == self.next_token
                &&& forall|k: int|
                    0 <= k < next.staged.len() ==> exists|j: int|
                        0 <= j < n && self.staged[j] == #[trigger] next.staged[k]
            },
        decreases n,
    {
        if n > 0 {
            self.swept_keeps(n - 1, now);
            if let Ok(next) = self.swept(n - 1, now) {
                let entry = self.staged[n - 1];
                assert(self.staged_entry_wf(entry));
                let attempts = attempts_of(entry.affected);
                assert forall|i: int| 0 <= i < attempts.len() implies ((
                #[trigger] attempts[i]) matches Some(count) ==> 1 <= count
                    <= next.policy.max_attempts) by {
                    assert(entry.affected[i] is Some ==> 1 <= entry.affected[i]->0.attempts
                        <= self.policy.max_attempts);
                }
                next.postponed_keeps(attempts, now);
                let last = Model { staged: next.staged.push(entry), ..next };
                assert forall|k: int, l: int| 0 <= k < l < last.staged.len() implies (
                #[trigger] last.staged[k]).token < (#[trigger] last.staged[l]).token by {
                    if l == next.staged.len() {
                        let j = choose|j: int|
                            0 <= j < n - 1 && self.staged[j] == next.staged[k];
                        assert(self.staged[j].token < self.staged[n - 1].token);
                    } else {
                        assert(next.staged[k].token < next.staged[l].token);
                    }
                }
                assert forall|k: int| 0 <= k < last.staged.len() implies last.staged_entry_wf(
                    #[trigger] last.staged[k],
                ) by {
                    if k < next.staged.len() {
                        assert(next.staged_entry_wf(next.staged[k]));
                    }
                }
                assert forall|k: int| 0 <= k < last.deferred.len() implies last.deferred_entry_wf(
                    #[trigger] last.deferred[k],
                ) by {
                    assert(next.deferred_entry_wf(next.deferred[k]));
                }
                assert forall|k: int| 0 <= k < last.staged.len() implies exists|j: int|
                    0 <= j < n && self.staged[j] == #[trigger] last.staged[k] by {
                    if k < next.staged.len() {
                        let j = choose|j: int| 0 <= j < n - 1 && self.staged[j] == next.staged[k];
                        assert(self.staged[j] == last.staged[k]);
                    } else {
                        assert(self.staged[n - 1] == last.staged[k]);
                    }
                }
            }
        }
    }

    pub proof fn released_keeps(self, n: int, now: MonotonicTime)
        requires
            self.wf(),
            n <= self.deferred.len(),
        ensures
            self.released(n, now) matches Ok((next, _)) ==> {
                &&& next.wf()
                &&& next.same_base(self)
                &&& next.next_sequence == self.next_sequence
                &&& forall|k: int|
                    0 <= k < next.deferred.len() ==> exists|j: int|
                        0 <= j < n && self.deferred[j] == #[trigger] next.deferred[k]
            },
        decreases n,
    {
        if n > 0 {
            self.released_keeps(n - 1, now);
            if let Ok((next, _)) = self.released(n - 1, now) {
                let entry = self.deferred[n - 1];
                assert(self.deferred_entry_wf(entry));
                next.restaged_keeps(entry.attempts, now);
                let last = Model { deferred: next.deferred.push(entry), ..next };
                assert forall|k: int, l: int| 0 <= k < l < last.deferred.len() implies (
                #[trigger] last.deferred[k]).sequence < (#[trigger] last.deferred[l]).sequence by {
                    if l == next.deferred.len() {
                        let j = choose|j: int|
                            0 <= j < n - 1 && self.deferred[j] == next.deferred[k];
                        assert(self.deferred[j].sequence < self.deferred[n - 1].sequence);
                    } else {
                        assert(next.deferred[k].sequence < next.deferred[l].sequence);
                    }
                }
                assert forall|k: int| 0 <= k < last.deferred.len() implies last.deferred_entry_wf(
                    #[trigger] last.deferred[k],
                ) by {
                    if k < next.deferred.len() {
                        assert(next.deferred_entry_wf(next.deferred[k]));
                    }
                }
                assert forall|k: int| 0 <= k < last.staged.len() implies last.staged_entry_wf(
                    #[trigger] last.staged[k],
                ) by {
                    assert(next.staged_entry_wf(next.staged[k]));
                }
                assert forall|k: int| 0 <= k < last.deferred.len() implies exists|j: int|
                    0 <= j < n && self.deferred[j] == #[trigger] last.deferred[k] by {
                    if k < next.deferred.len() {
                        let j = choose|j: int|
                            0 <= j < n - 1 && self.deferred[j] == next.deferred[k];
                        assert(self.deferred[j] == last.deferred[k]);
                    } else {
                        assert(self.deferred[n - 1] == last.deferred[k]);
                    }
                }
            }
        }
    }

    pub proof fn retried_keeps(self, n: int, now: MonotonicTime)
        requires
            self.wf(),
            n <= self.ids.len(),
        ensures
            self.retried(n, now) matches Ok((next, _)) ==> {
                &&& next.wf()
                &&& next.same_base(self)
                &&& next.deferred == self.deferred
                &&& next.next_sequence == self.next_sequence
            },
        decreases n,
    {
        if n > 0 {
            self.retried_keeps(n - 1, now);
            if let Ok((next, _)) = self.retried(n - 1, now) {
                if self.overdue(n - 1, now) {
                    let pending = self.devices[n - 1].pending->0;
                    next.dispatched_keeps(
                        seq![(CommandEntity::Device(self.ids[n - 1]), pending.target)],
                        sole(
                            self.ids.len(),
                            n - 1,
                            StagedAttempt {
                                target: pending.target,
                                attempts: (pending.attempts + 1) as u8,
                            },
                        ),
                        now,
                    );
                }
            }
        }
    }

    /// Sweeping, releasing and retrying keep the invariant, so no device is
    /// ever sent a command more often than the policy allows.
    pub proof fn due_keeps(self, now: MonotonicTime)
        requires
            self.wf(),
        ensures
            self.due(now) matches Ok((next, _)) ==> next.wf() && next.same_base(self),
    {
        self.swept_keeps(self.staged.len() as int, now);
        if let Ok(next) = self.swept(self.staged.len() as int, now) {
            next.released_keeps(next.deferred.len() as int, now);
            if let Ok((later, _)) = next.released(next.deferred.len() as int, now) {
                later.retried_keeps(later.ids.len() as int, now);
            }
        }
    }
}

impl Model {
    /// Entries of the work under way keep their form when only devices, groups,
    /// transport or bridge change.
    proof fn lemma_same_work(self, next: Model)
        requires
            self.staged_wf(),
            self.deferred_wf(),
            next.ids == self.ids,
            next.policy == self.policy,
            next.next_token == self.next_token,
            next.next_sequence == self.next_sequence,
            next.staged == self.staged,
            next.deferred == self.deferred,
        ensures
            next.staged_wf(),
            next.deferred_wf(),
    {
        assert forall|k: int| 0 <= k < next.staged.len() implies next.staged_entry_wf(
            #[trigger] next.staged[k],
        ) by {
            assert(self.staged_entry_wf(self.staged[k]));
        }
        assert forall|k: int| 0 <= k < next.deferred.len() implies next.deferred_entry_wf(
            #[trigger] next.deferred[k],
        ) by {
            assert(self.deferred_entry_wf(self.deferred[k]));
        }
    }

    /// The time of the last operation does not matter to the invariant.
    pub proof fn time_keeps(self, time: Option<MonotonicTime>)
        requires
            self.wf(),
        ensures
            (Model { last_time: time, ..self }).wf(),
    {
        let next = Model { last_time: time, ..self };
        self.lemma_same_work(next);
        assert(forall|i: int| 0 <= i < self.ids.len() ==> #[trigger] next.group_of[i]
            == self.group_of[i]);
    }

    pub proof fn transport_keeps(self, transport: TransportStatus)
        requires
            self.wf(),
        ensures
            (Model { transport, ..self }).wf(),
    {
        let next = Model { transport, ..self };
        self.lemma_same_work(next);
        assert(forall|i: int| 0 <= i < self.ids.len() ==> #[trigger] next.group_of[i]
            == self.group_of[i]);
    }

    pub proof fn bridge_keeps(self, bridge: Availability)
        requires
            self.wf(),
        ensures
            (Model { bridge, ..self }).wf(),
    {
        let next = Model { bridge, ..self };
        self.lemma_same_work(next);
        assert(forall|i: int| 0 <= i < self.ids.len() ==> #[trigger] next.group_of[i]
            == self.group_of[i]);
    }

    /// A device may change as long as its pending command is in order and it
    /// keeps a desired state.
    pub proof fn device_keeps(self, i: int, state: DeviceState)
        requires
            self.wf(),
            0 <= i < self.ids.len(),
            state.pending matches Some(pending) ==> !state.in_sync && 1 <= pending.attempts
                <= self.policy.max_attempts,
            self.devices[i].desired is Some ==> state.desired is Some,
        ensures
            self.with_device(i, state).wf(),
    {
        let next = self.with_device(i, state);
        self.lemma_same_work(next);
        assert forall|j: int| 0 <= j < next.ids.len() implies ((
        #[trigger] next.group_of[j]) matches Some(g) ==> {
            &&& g < next.groups.len()
            &&& next.groups[g as int].command_target is Some ==> next.devices[j].desired is Some
        }) by {
            assert(self.group_of[j] == next.group_of[j]);
        }
        assert forall|j: int| 0 <= j < next.ids.len() implies ((
        #[trigger] next.devices[j]).pending matches Some(pending) ==> {
            &&& !next.devices[j].in_sync
            &&& 1 <= pending.attempts <= next.policy.max_attempts
        }) by {
            if j != i {
                assert(self.devices[j] == next.devices[j]);
            }
        }
    }

    proof fn lemma_idle(self)
        requires
            self.wf(),
        ensures
            self.idle().wf(),
    {
        let next = self.idle();
        assert forall|j: int| 0 <= j < next.ids.len() implies ((
        #[trigger] next.group_of[j]) matches Some(g) ==> {
            &&& g < next.groups.len()
            &&& next.groups[g as int].command_target is Some ==> next.devices[j].desired is Some
        }) by {
            assert(self.group_of[j] == next.group_of[j]);
        }
    }

    /// Losing the broker ends all work under way and nothing else: what is
    /// desired and what was observed stays.
    pub proof fn disconnected_keeps(self)
        requires
            self.wf(),
        ensures
            self.disconnected().wf(),
            self.disconnected().staged.len() == 0,
            self.disconnected().deferred.len() == 0,
            !self.disconnected().can_publish(),
            forall|i: int|
                0 <= i < self.ids.len() ==> {
                    &&& (#[trigger] self.disconnected().devices[i]).desired
                        == self.devices[i].desired
                    &&& self.disconnected().devices[i].observed == self.devices[i].observed
                    &&& self.disconnected().devices[i].pending is None
                },
    {
        self.lemma_idle();
        let next = self.disconnected();
        self.idle().lemma_same_work(next);
        assert(forall|i: int| 0 <= i < self.ids.len() ==> #[trigger] next.group_of[i]
            == self.idle().group_of[i]);
        assert(next.wf());
    }

    pub proof fn connected_keeps(self, now: MonotonicTime)
        requires
            self.wf(),
        ensures
            self.connected(now) matches Ok((next, _)) ==> next.wf(),
    {
        let next = Model { transport: TransportStatus::Connected, ..self };
        self.lemma_same_work(next);
        assert(next.wf());
        next.all_commanded_keeps(now);
    }

    pub proof fn bridged_keeps(self, availability: Availability, now: MonotonicTime)
        requires
            self.wf(),
        ensures
            self.bridged(availability, now) matches Ok((next, _)) ==> next.wf(),
    {
        self.lemma_idle();
        let start = if availability is Online {
            self
        } else {
            self.idle()
        };
        let next = Model { bridge: availability, ..start };
        start.lemma_same_work(next);
        assert(next.wf());
        next.all_commanded_keeps(now);
    }

    pub proof fn made_available_keeps(self, i: int, availability: Availability, now: MonotonicTime)
        requires
            self.wf(),
            0 <= i < self.ids.len(),
        ensures
            self.made_available(i, availability, now) matches Ok((next, _)) ==> next.wf(),
    {
        let state = self.devices[i];
        let changed = DeviceState {
            availability,
            pending: if availability is Online {
                state.pending
            } else {
                None
            },
            ..state
        };
        self.device_keeps(i, changed);
        let next = self.with_device(i, changed);
        next.commanded_keeps(i, 1, now);
        let mask = only(self.ids.len(), i);
        next.without_work_keeps(mask);
        next.without_work(mask).restaged_keeps(first_attempts(next.canceled(mask)), now);
    }

    pub proof fn desired_keeps(self, i: int, target: LightTarget, now: MonotonicTime)
        requires
            self.wf(),
            0 <= i < self.ids.len(),
        ensures
            self.desired(i, target, now) matches Ok((next, _)) ==> next.wf(),
    {
        let state = self.devices[i];
        let wanted = state.capabilities.degraded(target);
        self.device_keeps(i, state.desiring(wanted));
        let next = self.with_device(i, state.desiring(wanted));
        let mask = only(self.ids.len(), i);
        next.without_work_keeps(mask);
        next.without_work(mask).restaged_keeps(
            first_attempts(next.canceled(mask).update(i, !state.desiring(wanted).in_sync)),
            now,
        );
    }

    pub proof fn with_group_target_keeps(self, g: int, target: LightTarget)
        requires
            self.wf(),
            0 <= g < self.groups.len(),
        ensures
            self.with_group_target(g, target).wf(),
            self.with_group_target(g, target).ids == self.ids,
    {
        let next = self.with_group_target(g, target);
        self.lemma_same_work(next);
        let changed = self.changed_members(g, target);
        assert forall|i: int| 0 <= i < next.ids.len() implies ((
        #[trigger] next.group_of[i]) matches Some(h) ==> {
            &&& h < next.groups.len()
            &&& next.groups[h as int].command_target is Some ==> next.devices[i].desired is Some
        }) by {
            assert(self.group_of[i] == next.group_of[i]);
            if let Some(h) = self.group_of[i] {
                if h == g {
                    assert(self.members(g)[i]);
                }
            }
        }
        assert forall|i: int| 0 <= i < next.ids.len() implies ((
        #[trigger] next.devices[i]).pending matches Some(pending) ==> {
            &&& !next.devices[i].in_sync
            &&& 1 <= pending.attempts <= next.policy.max_attempts
        }) by {
            assert(changed[i] || next.devices[i] == self.devices[i]);
        }
    }

    pub proof fn group_desired_keeps(self, g: int, target: LightTarget, now: MonotonicTime)
        requires
            self.wf(),
            0 <= g < self.groups.len(),
        ensures
            self.group_desired(g, target, now) matches Ok((next, _)) ==> next.wf(),
    {
        let group = self.groups[g];
        let wanted = group.capabilities.degraded(target);
        let changed = self.changed_members(g, target);
        let next = self.with_group_target(g, target);
        self.with_group_target_keeps(g, target);
        next.without_work_keeps(changed);
        let idle = next.without_work(changed);
        let canceled = next.canceled(changed);
        idle.restaged_keeps(first_attempts(either(canceled, changed)), now);
        idle.group_commanded_keeps(
            g,
            wanted,
            !(group.command_target matches Some(target) && target.same(wanted)),
            changed,
            now,
        );
    }

    pub proof fn group_removal_keeps(self, g: int)
        requires
            self.wf(),
            0 <= g < self.groups.len(),
        ensures
            (Model {
                groups: self.groups.update(
                    g,
                    GroupState { logical_desired: None, command_target: None, ..self.groups[g] },
                ),
                ..self
            }).wf(),
    {
        let next = Model {
            groups: self.groups.update(
                g,
                GroupState { logical_desired: None, command_target: None, ..self.groups[g] },
            ),
            ..self
        };
        self.lemma_same_work(next);
        assert forall|i: int| 0 <= i < next.ids.len() implies ((
        #[trigger] next.group_of[i]) matches Some(h) ==> {
            &&& h < next.groups.len()
            &&& next.groups[h as int].command_target is Some ==> next.devices[i].desired is Some
        }) by {
            assert(self.group_of[i] == next.group_of[i]);
        }
    }

    pub proof fn group_cleared_keeps(self, g: int, now: MonotonicTime)
        requires
            self.wf(),
            0 <= g < self.groups.len(),
        ensures
            self.group_cleared(g, now) matches Ok((next, _)) ==> next.wf(),
    {
        let group = self.groups[g];
        let next = Model {
            groups: self.groups.update(
                g,
                GroupState { logical_desired: None, command_target: None, ..group },
            ),
            ..self
        };
        self.group_removal_keeps(g);
        assert(next.wf());
        let members = self.members(g);
        next.without_work_keeps(members);
        next.without_work(members).restaged_keeps(
            first_attempts(either(next.canceled(members), members)),
            now,
        );
    }

    pub proof fn observed_keeps(self, i: int, update: DeviceTarget, now: MonotonicTime)
        requires
            self.wf(),
            0 <= i < self.ids.len(),
        ensures
            self.observed(i, update, now) matches Ok((next, _)) ==> next.wf(),
    {
        let state = self.devices[i];
        let seen = crate::reconcile::merged(state.observed, update);
        let in_sync = crate::reconcile::synchronized(
            state.desired,
            Some(seen),
            state.color_policy,
        );
        let changed = DeviceState {
            observed: Some(seen),
            in_sync,
            pending: if in_sync {
                None
            } else {
                state.pending
            },
            ..state
        };
        assert(state.pending is Some ==> 1 <= state.pending->0.attempts
            <= self.policy.max_attempts) by {
            assert(self.devices[i] == state);
        }
        self.device_keeps(i, changed);
        let next = self.with_device(i, changed);
        let mask = only(self.ids.len(), i);
        next.without_work_keeps(mask);
        next.without_work(mask).restaged_keeps(
            first_attempts(next.canceled(mask).update(i, false)),
            now,
        );
    }

    pub proof fn restarted_keeps(self, i: int, now: MonotonicTime)
        requires
            self.wf(),
            0 <= i < self.ids.len(),
        ensures
            self.restarted(i, now) matches Ok((next, _)) ==> next.wf(),
    {
        let state = self.devices[i];
        let changed = DeviceState {
            observed: None,
            pending: None,
            in_sync: state.desired is None,
            ..state
        };
        self.device_keeps(i, changed);
        let next = self.with_device(i, changed);
        let mask = only(self.ids.len(), i);
        next.without_work_keeps(mask);
        next.without_work(mask).restaged_keeps(
            first_attempts(next.canceled(mask).update(i, true)),
            now,
        );
    }

    /// A staged token has a place, and what stands there is its batch.
    pub proof fn token_is_placed(staged: Seq<StagedView>, token: DispatchToken)
        ensures
            0 <= token_place(staged, token) <= staged.len(),
            token_place(staged, token) < staged.len() ==> staged[token_place(staged, token)].token
                == token.value,
            forall|k: int|
                0 <= k < token_place(staged, token) ==> (#[trigger] staged[k]).token
                    != token.value,
        decreases staged.len(),
    {
        if staged.len() > 0 && staged[0].token != token.value {
            let rest = staged.drop_first();
            Model::token_is_placed(rest, token);
            assert forall|k: int| 0 <= k < token_place(staged, token) implies (
            #[trigger] staged[k]).token != token.value by {
                if k > 0 {
                    assert(rest[k - 1] == staged[k]);
                }
            }
        }
    }

    proof fn lemma_with_staged(self, k: int, entry: StagedView)
        requires
            self.wf(),
            0 <= k < self.staged.len(),
            self.staged_entry_wf(entry),
            entry.token == self.staged[k].token,
        ensures
            self.with_staged(k, entry).wf(),
    {
        let next = self.with_staged(k, entry);
        assert forall|l: int| 0 <= l < next.staged.len() implies next.staged_entry_wf(
            #[trigger] next.staged[l],
        ) by {
            if l != k {
                assert(self.staged_entry_wf(self.staged[l]));
            }
        }
        assert forall|a: int, b: int| 0 <= a < b < next.staged.len() implies (
        #[trigger] next.staged[a]).token < (#[trigger] next.staged[b]).token by {
            assert(self.staged[a].token < self.staged[b].token);
        }
        assert forall|l: int| 0 <= l < next.deferred.len() implies next.deferred_entry_wf(
            #[trigger] next.deferred[l],
        ) by {
            assert(self.deferred_entry_wf(self.deferred[l]));
        }
    }

    proof fn lemma_staged_removed(self, k: int)
        requires
            self.wf(),
            0 <= k < self.staged.len(),
        ensures
            (Model { staged: self.staged.remove(k), ..self }).wf(),
    {
        let next = Model { staged: self.staged.remove(k), ..self };
        assert forall|l: int| 0 <= l < next.staged.len() implies next.staged_entry_wf(
            #[trigger] next.staged[l],
        ) by {
            assert(next.staged[l] == self.staged[if l < k { l } else { l + 1 }]);
            assert(self.staged_entry_wf(self.staged[if l < k { l } else { l + 1 }]));
        }
        assert forall|a: int, b: int| 0 <= a < b < next.staged.len() implies (
        #[trigger] next.staged[a]).token < (#[trigger] next.staged[b]).token by {
            assert(next.staged[a] == self.staged[if a < k { a } else { a + 1 }]);
            assert(next.staged[b] == self.staged[if b < k { b } else { b + 1 }]);
        }
        assert forall|l: int| 0 <= l < next.deferred.len() implies next.deferred_entry_wf(
            #[trigger] next.deferred[l],
        ) by {
            assert(self.deferred_entry_wf(self.deferred[l]));
        }
    }

    pub proof fn registered_keeps(
        self,
        token: DispatchToken,
        epoch: MonotonicTime,
        operation_count: usize,
        max_offset_ms: u64,
    )
        requires
            self.wf(),
            self.has_token(token),
        ensures
            self.registered(token, epoch, operation_count, max_offset_ms) matches Ok((next, _))
                ==> next.wf(),
    {
        Model::token_is_placed(self.staged, token);
        let k = token_place(self.staged, token);
        assert(self.staged_entry_wf(self.staged[k]));
        if let Ok((next, outcome)) = self.registered(token, epoch, operation_count, max_offset_ms) {
            if outcome is Registered {
                self.lemma_with_staged(k, next.staged[k]);
            }
        }
    }

    pub proof fn accepted_keeps(self, token: DispatchToken, index: usize, now: MonotonicTime)
        requires
            self.wf(),
        ensures
            self.accepted(token, index, now) matches Ok((next, _)) ==> next.wf(),
    {
        Model::token_is_placed(self.staged, token);
        let k = token_place(self.staged, token);
        if let Ok((next, outcome)) = self.accepted(token, index, now) {
            let entry = self.staged[k];
            assert(self.staged_entry_wf(entry));
            if outcome is BatchAccepted {
                self.lemma_staged_removed(k);
                let removed = Model { staged: self.staged.remove(k), ..self };
                removed.lemma_same_work(next);
                assert forall|i: int| 0 <= i < next.ids.len() implies ((
                #[trigger] next.group_of[i]) matches Some(g) ==> {
                    &&& g < next.groups.len()
                    &&& next.groups[g as int].command_target is Some
                        ==> next.devices[i].desired is Some
                }) by {
                    assert(self.group_of[i] == next.group_of[i]);
                }
                assert forall|i: int| 0 <= i < next.ids.len() implies ((
                #[trigger] next.devices[i]).pending matches Some(pending) ==> {
                    &&& !next.devices[i].in_sync
                    &&& 1 <= pending.attempts <= next.policy.max_attempts
                }) by {
                    assert(entry.affected[i] is Some ==> 1 <= entry.affected[i]->0.attempts
                        <= self.policy.max_attempts);
                    if entry.affected[i] is None {
                        assert(next.devices[i] == self.devices[i]);
                    }
                }
            } else {
                self.lemma_with_staged(k, next.staged[k]);
            }
        }
    }

    pub proof fn failed_keeps(self, token: DispatchToken, index: usize, now: MonotonicTime)
        requires
            self.wf(),
        ensures
            self.failed(token, index, now) matches Ok((next, _)) ==> next.wf(),
    {
        Model::token_is_placed(self.staged, token);
        let k = token_place(self.staged, token);
        if self.claim_fault(token, index) is None {
            self.lemma_staged_removed(k);
            let entry = self.staged[k];
            assert(self.staged_entry_wf(entry));
            let attempts = attempts_of(entry.affected);
            assert forall|i: int| 0 <= i < attempts.len() implies ((
            #[trigger] attempts[i]) matches Some(count) ==> 1 <= count
                <= self.policy.max_attempts) by {
                assert(entry.affected[i] is Some ==> 1 <= entry.affected[i]->0.attempts
                    <= self.policy.max_attempts);
            }
            (Model { staged: self.staged.remove(k), ..self }).postponed_keeps(attempts, now);
        }
    }

    pub proof fn dropped_keeps(self, token: DispatchToken)
        requires
            self.wf(),
        ensures
            self.dropped(token).0.wf(),
            !self.dropped(token).0.has_token(token),
    {
        Model::token_is_placed(self.staged, token);
        let k = token_place(self.staged, token);
        if self.has_token(token) {
            self.lemma_staged_removed(k);
            let removed = Model { staged: self.staged.remove(k), ..self };
            let next = self.dropped(token).0;
            removed.lemma_same_work(next);
            assert forall|i: int| 0 <= i < next.ids.len() implies ((
            #[trigger] next.group_of[i]) matches Some(g) ==> {
                &&& g < next.groups.len()
                &&& next.groups[g as int].command_target is Some
                    ==> next.devices[i].desired is Some
            }) by {
                assert(self.group_of[i] == next.group_of[i]);
            }
            Model::token_is_placed(next.staged, token);
            let l = token_place(next.staged, token);
            if l < next.staged.len() {
                assert(next.staged[l] == self.staged[if l < k { l } else { l + 1 }]);
            }
        }
    }

    /// Position of the only batch with a token.
    proof fn lemma_token_at(self, token: DispatchToken, k: int)
        requires
            self.staged_wf(),
            0 <= k < self.staged.len(),
            self.staged[k].token == token.value,
        ensures
            token_place(self.staged, token) == k,
    {
        Model::token_is_placed(self.staged, token);
        let l = token_place(self.staged, token);
        if l < k {
            assert(self.staged[l].token < self.staged[k].token);
        }
    }

    /// Removing the batch of a token removes the token.
    proof fn lemma_removed_token(self, token: DispatchToken)
        requires
            self.wf(),
            self.has_token(token),
        ensures
            !(Model {
                staged: self.staged.remove(token_place(self.staged, token)),
                ..self
            }).has_token(token),
    {
        self.dropped_keeps(token);
        Model::token_is_placed(self.dropped(token).0.staged, token);
    }

    /// A newer target for a device withdraws every batch that was to command it.
    pub proof fn newer_target_withdraws(
        self,
        i: int,
        target: LightTarget,
        now: MonotonicTime,
        token: DispatchToken,
    )
        requires
            self.wf(),
            0 <= i < self.ids.len(),
            self.has_token(token),
            self.staged[token_place(self.staged, token)].affected[i] is Some,
            !self.devices[i].desires(self.devices[i].capabilities.degraded(target)),
            self.desired(i, target, now) is Ok,
        ensures
            !self.desired(i, target, now)->Ok_0.0.has_token(token),
    {
        let mask = only(self.ids.len(), i);
        let state = self.devices[i];
        let next = self.with_device(i, state.desiring(state.capabilities.degraded(target)));
        let idle = next.without_work(mask);
        let last = self.desired(i, target, now)->Ok_0.0;
        Model::token_is_placed(self.staged, token);
        let k = token_place(self.staged, token);
        assert(self.staged_entry_wf(self.staged[k]));
        assert(touches(self.staged[k].affected, mask)) by {
            assert(mask[i]);
        }
        Model::token_is_placed(last.staged, token);
        let l = token_place(last.staged, token);
        if l < last.staged.len() {
            lemma_outside_is_clear(self.staged, mask);
            lemma_staged_outside(self.staged, mask);
            if l < idle.staged.len() {
                assert(last.staged[l] == idle.staged[l]);
                assert(self.staged.contains(idle.staged[l]));
                let j = self.staged.index_of(idle.staged[l]);
                self.lemma_token_at(token, j);
                assert(!touches(idle.staged[l].affected, mask));
            } else {
                assert(last.staged[l].token == self.next_token);
            }
        }
    }

    /// A batch that fails for now is withdrawn and put off as a whole; no attempt
    /// is spent on it, whatever was accepted of it before.
    pub proof fn failure_spends_no_attempt(
        self,
        token: DispatchToken,
        index: usize,
        now: MonotonicTime,
    )
        requires
            self.wf(),
            self.failed(token, index, now) is Ok,
        ensures
            ({
                let next = self.failed(token, index, now)->Ok_0.0;
                let attempts = attempts_of(
                    self.staged[token_place(self.staged, token)].affected,
                );
                &&& !next.has_token(token)
                &&& next.devices == self.devices
                &&& !unset(attempts) ==> next.deferred.len() == self.deferred.len() + 1
                    && next.deferred.last().attempts == attempts
            }),
    {
        self.lemma_removed_token(token);
    }

    /// A batch that fails for good, or whose last operation is accepted, is over.
    pub proof fn finished_batches_are_gone(
        self,
        token: DispatchToken,
        index: usize,
        now: MonotonicTime,
    )
        requires
            self.wf(),
        ensures
            self.abandoned(token, index) matches Ok((next, _)) ==> !next.has_token(token),
            self.accepted(token, index, now) matches Ok((next, DispatchAcceptance::BatchAccepted))
                ==> !next.has_token(token),
    {
        if self.has_token(token) {
            self.lemma_removed_token(token);
        }
    }

    /// A batch that was not accepted in time is withdrawn by the next sweep, and
    /// none of its attempts is spent.
    pub proof fn late_batches_are_withdrawn(self, now: MonotonicTime, token: DispatchToken)
        requires
            self.wf(),
            self.has_token(token),
            self.staged[token_place(
                self.staged,
                token,
            )].acceptance_deadline.value.at_most(now.value),
            self.swept(self.staged.len() as int, now) is Ok,
        ensures
            !self.swept(self.staged.len() as int, now)->Ok_0.has_token(token),
            self.swept(self.staged.len() as int, now)->Ok_0.devices == self.devices,
    {
        let n = self.staged.len() as int;
        self.lemma_swept(n, now);
        let next = self.swept(n, now)->Ok_0;
        Model::token_is_placed(self.staged, token);
        Model::token_is_placed(next.staged, token);
        let l = token_place(next.staged, token);
        if l < next.staged.len() {
            assert(self.staged.contains(next.staged[l]));
            let j = self.staged.index_of(next.staged[l]);
            self.lemma_token_at(token, j);
        }
    }

    proof fn lemma_swept(self, n: int, now: MonotonicTime)
        requires
            0 <= n <= self.staged.len(),
            self.swept(n, now) is Ok,
        ensures
            self.swept(n, now)->Ok_0.devices == self.devices,
            forall|l: int|
                0 <= l < self.swept(n, now)->Ok_0.staged.len() ==> {
                    let entry = #[trigger] self.swept(n, now)->Ok_0.staged[l];
                    &&& self.staged.contains(entry)
                    &&& !entry.acceptance_deadline.value.at_most(now.value)
                },
        decreases n,
    {
        if n > 0 {
            self.lemma_swept(n - 1, now);
            assert(self.staged.contains(self.staged[n - 1]));
        }
    }

    /// A group that gives up its target leaves what its members desire.
    pub proof fn clearing_keeps_desires(self, g: int, now: MonotonicTime)
        requires
            self.wf(),
            self.group_cleared(g, now) is Ok,
        ensures
            self.group_cleared(g, now)->Ok_0.0.devices == self.devices,
    {
    }

    /// What is outstanding goes to listed devices.
    pub(crate) proof fn lemma_outstanding_listed(self, attempts: Seq<Option<u8>>, n: int)
        ensures
            forall|k: int|
                0 <= k < self.outstanding_batch(attempts, n).len() ==> exists|j: int|
                    0 <= j < n && attempts[j] is Some && (#[trigger] self.outstanding_batch(
                        attempts,
                        n,
                    )[k]).0 == CommandEntity::Device(#[trigger] self.ids[j]),
        decreases n,
    {
        if n > 0 {
            self.lemma_outstanding_listed(attempts, n - 1);
            let rest = self.outstanding_batch(attempts, n - 1);
            let all = self.outstanding_batch(attempts, n);
            assert forall|k: int| 0 <= k < all.len() implies exists|j: int|
                0 <= j < n && attempts[j] is Some && (#[trigger] all[k]).0
                    == CommandEntity::Device(#[trigger] self.ids[j]) by {
                if k < rest.len() {
                    assert(all[k] == rest[k]);
                    let j = choose|j: int|
                        0 <= j < n - 1 && attempts[j] is Some && rest[k].0
                            == CommandEntity::Device(#[trigger] self.ids[j]);
                    assert(all[k].0 == CommandEntity::Device(self.ids[j]));
                } else {
                    assert(all[k].0 == CommandEntity::Device(self.ids[n - 1]));
                }
            }
        }
    }

    /// No two devices have one name.
    proof fn lemma_names_differ(self, i: int, j: int)
        requires
            crate::reconcile::ids_ascend(self.ids),
            0 <= i < self.ids.len(),
            0 <= j < self.ids.len(),
            i != j,
        ensures
            self.ids[i] != self.ids[j],
    {
        crate::text::before_irreflexive(self.ids[i].key());
    }

    /// A device's report is never answered with a command to it, so the two do not
    /// chase each other; one that shows what is desired ends the wait for it.
    pub proof fn reports_are_not_answered(self, i: int, update: DeviceTarget, now: MonotonicTime)
        requires
            self.wf(),
            0 <= i < self.ids.len(),
        ensures
            self.observed(i, update, now) matches Ok((next, actions)) ==> {
                &&& next.devices[i].in_sync ==> next.devices[i].pending is None
                &&& forall|k: int|
                    0 <= k < actions.len() ==> ((
                    #[trigger] actions[k]) matches ReconcileAction::Command { entity, .. }
                        ==> entity matches CommandEntity::Device(id) && id != self.ids[i])
            },
    {
        if let Ok((next, actions)) = self.observed(i, update, now) {
            let state = self.devices[i];
            let seen = crate::reconcile::merged(state.observed, update);
            let in_sync = crate::reconcile::synchronized(
                state.desired,
                Some(seen),
                state.color_policy,
            );
            if in_sync {
                let shown = self.with_device(
                    i,
                    DeviceState { observed: Some(seen), in_sync, pending: None, ..state },
                );
                let mask = only(self.ids.len(), i);
                let idle = shown.without_work(mask);
                let attempts = first_attempts(shown.canceled(mask).update(i, false));
                let n = self.ids.len() as int;
                idle.lemma_outstanding_listed(attempts, n);
                assert forall|k: int| 0 <= k < actions.len() implies ((
                #[trigger] actions[k]) matches ReconcileAction::Command { entity, .. }
                    ==> entity matches CommandEntity::Device(id) && id != self.ids[i]) by {
                    let batch = idle.outstanding_batch(attempts, n);
                    let j = choose|j: int|
                        0 <= j < n && attempts[j] is Some && batch[k].0 == CommandEntity::Device(
                            #[trigger] idle.ids[j],
                        );
                    assert(attempts[i] is None);
                    self.lemma_names_differ(i, j);
                }
            }
        }
    }

    /// Without broker or bridge a new target is remembered and nothing is sent.
    pub proof fn targets_wait_for_the_bridge(self, i: int, target: LightTarget, now: MonotonicTime)
        requires
            self.wf(),
            0 <= i < self.ids.len(),
            !self.can_publish(),
        ensures
            self.desired(i, target, now) matches Ok((next, actions)) && actions.len() == 0 && (
            self.devices[i].desires(self.devices[i].capabilities.degraded(target))
                || next.devices[i].desired == Some(
                self.devices[i].capabilities.degraded(target),
            )),
    {
    }
}

/// What is left when the batches of `mask` are dropped touches nothing of it.
proof fn lemma_outside_is_clear(staged: Seq<StagedView>, mask: Seq<bool>)
    ensures
        forall|k: int|
            0 <= k < staged_outside(staged, mask).len() ==> !touches(
                (#[trigger] staged_outside(staged, mask)[k]).affected,
                mask,
            ),
    decreases staged.len(),
{
    if staged.len() > 0 {
        lemma_outside_is_clear(staged.drop_last(), mask);
    }
}

} // verus!
