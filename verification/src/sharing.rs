//! What commands to a whole group bring to its members, and what reports tell.
use crate::dispatch::Model;
use crate::double::Double;
use crate::reconcile::{Availability, CommandEntity, DispatchToken, ReconcileAction};
use crate::sending::{addressed, asked, lemma_ids_differ};
use crate::state::MonotonicTime;
use crate::value::{DeviceTarget, LightTarget};
use vstd::prelude::*;

verus! {

/// The numbers in a target are finite, and it asks for a colour or a warmth, not both.
pub open spec fn sound(target: DeviceTarget) -> bool {
    &&& target.brightness matches Some(brightness) ==> brightness.value.finite()
    &&& target.color_temperature matches Some(kelvin) ==> kelvin.value.finite()
    &&& target.color is Some ==> target.color_temperature is None
}

/// `seen` shows all that `wanted` asks for.
pub open spec fn shows(seen: DeviceTarget, wanted: DeviceTarget) -> bool {
    &&& wanted.on is Some ==> seen.on == wanted.on
    &&& wanted.brightness matches Some(want) ==> seen.brightness matches Some(have)
        && have.value.amount() == want.value.amount()
    &&& wanted.color_temperature matches Some(want) ==> seen.color_temperature matches Some(have)
        && have.value.amount() == want.value.amount()
    &&& wanted.color matches Some(want) ==> seen.color matches Some(have) && (have == want
        || want.same(have))
}

proof fn lemma_same(a: Double, b: Double)
    requires
        a.finite(),
        b.finite(),
        a.same(b),
    ensures
        a.amount() == b.amount(),
{
    Double::amounts_keep_order(a, b);
    Double::amounts_keep_order(b, a);
}

/// A member of a group that takes the group's command and then what is left for it
/// shows all that is wanted of it, whatever it showed before.
pub proof fn group_and_rest_make_the_whole(
    before: Option<DeviceTarget>,
    wanted: DeviceTarget,
    group: DeviceTarget,
)
    requires
        sound(wanted),
        sound(group),
    ensures
        shows(
            crate::reconcile::merged(
                Some(crate::reconcile::merged(before, group)),
                crate::reconcile::remainder(wanted, group),
            ),
            wanted,
        ),
{
    if let (Some(a), Some(b)) = (wanted.brightness, group.brightness) {
        if a.value.same(b.value) {
            lemma_same(a.value, b.value);
        }
    }
    if let (Some(a), Some(b)) = (wanted.color_temperature, group.color_temperature) {
        if a.value.same(b.value) {
            lemma_same(a.value, b.value);
        }
    }
}

/// A member that wants just what the group is told is told nothing more.
pub proof fn equal_wishes_leave_no_rest(wanted: DeviceTarget)
    requires
        sound(wanted),
        wanted.color matches Some(color) ==> color.wf(),
    ensures
        crate::reconcile::asks_nothing(crate::reconcile::remainder(wanted, wanted)),
{
}

impl Model {
    /// Where the single command for a member stands.
    proof fn lemma_fallback_place(
        self,
        members: Seq<bool>,
        target: DeviceTarget,
        sent: bool,
        changed: Seq<bool>,
        n: int,
        i: int,
    ) -> (k: int)
        requires
            0 <= i < n <= self.ids.len(),
            members[i],
            self.online(i),
            self.fallback_sent(i, target, sent, changed),
        ensures
            0 <= k < self.fallback_batch(members, target, sent, changed, n).len(),
            self.fallback_batch(members, target, sent, changed, n)[k] == (
                CommandEntity::Device(self.ids[i]),
                self.fallback(i, target, sent),
            ),
        decreases n,
    {
        if i == n - 1 {
            self.fallback_batch(members, target, sent, changed, n - 1).len() as int
        } else {
            self.lemma_fallback_place(members, target, sent, changed, n - 1, i)
        }
    }

    /// A new wish for a group reaches each member that can be reached and does not show
    /// it: by a command of its own, or by one to the group and one for what is left.
    pub proof fn group_wishes_reach_the_members(
        self,
        g: int,
        target: LightTarget,
        now: MonotonicTime,
        i: int,
    )
        requires
            self.wf(),
            0 <= g < self.groups.len(),
            self.can_publish(),
            !(self.groups[g].logical_desired matches Some(last) && last.same(target)),
            0 <= i < self.ids.len(),
            self.group_of[i] == Some(g as usize),
            self.devices[i].availability is Online,
            !self.devices[i].desires(self.devices[i].capabilities.degraded(target)),
            !crate::reconcile::synchronized(
                Some(self.devices[i].capabilities.degraded(target)),
                self.devices[i].observed,
                self.devices[i].color_policy,
            ),
            !crate::reconcile::asks_nothing(self.devices[i].capabilities.degraded(target)),
            self.group_desired(g, target, now) is Ok,
        ensures
            ({
                let (next, actions) = self.group_desired(g, target, now)->Ok_0;
                let wanted = self.devices[i].capabilities.degraded(target);
                let shared = self.groups[g].capabilities.degraded(target);
                let rest = crate::reconcile::remainder(wanted, shared);
                &&& next.devices[i].desired == Some(wanted)
                &&& {
                    ||| asked(actions, CommandEntity::Device(self.ids[i]), wanted)
                    ||| asked(actions, CommandEntity::Group(self.group_ids[g]), shared) && (
                    crate::reconcile::asks_nothing(rest) || asked(
                        actions,
                        CommandEntity::Device(self.ids[i]),
                        rest,
                    ))
                }
            }),
    {
        let wanted = self.devices[i].capabilities.degraded(target);
        let group = self.groups[g];
        let shared = group.capabilities.degraded(target);
        let changed = self.changed_members(g, target);
        let marked = self.with_group_target(g, target);
        let canceled = marked.canceled(changed);
        let idle = marked.without_work(changed);
        let n = self.ids.len() as int;
        let (next, actions) = self.group_desired(g, target, now)->Ok_0;
        assert(self.members(g)[i]);
        assert(changed[i]);
        assert(idle.devices[i] == self.devices[i].desiring(wanted));
        if crate::dispatch::any(canceled) {
            let attempts = crate::dispatch::first_attempts(
                crate::dispatch::either(canceled, changed),
            );
            assert(attempts[i] == Some(1u8));
            let batch = idle.outstanding_batch(attempts, n);
            let k = idle.lemma_place(attempts, n, i);
            let affected = Seq::new(idle.ids.len(), |i: int| idle.outstanding(attempts, i));
            assert(affected[i] is Some);
            assert(actions == crate::dispatch::commands(
                DispatchToken { value: self.next_token },
                batch,
            ));
            assert(actions[k] matches ReconcileAction::Command { entity: e, target: t, .. } && e
                == CommandEntity::Device(self.ids[i]) && t == wanted);
        } else {
            let send = !(group.command_target matches Some(t) && t.same(shared));
            let members = idle.members(g);
            assert(members[i] && idle.online(i));
            let sent = idle.group_sent(members, shared, send);
            let fallbacks = idle.fallback_batch(members, shared, sent, changed, n);
            let batch = if sent {
                seq![(CommandEntity::Group(self.group_ids[g]), shared)] + fallbacks
            } else {
                fallbacks
            };
            let affected = Seq::new(
                idle.ids.len(),
                |i: int|
                    if members[i] && idle.online(i) && (sent || idle.fallback_sent(
                        i,
                        shared,
                        sent,
                        changed,
                    )) {
                        Some(
                            crate::reconcile::StagedAttempt {
                                target: idle.devices[i].desired->0,
                                attempts: 1u8,
                            },
                        )
                    } else {
                        None
                    },
            );
            assert(affected[i] is Some);
            let most = if idle.fallback_sent(i, shared, sent, changed) {
                idle.lemma_fallback_place(members, shared, sent, changed, n, i)
            } else {
                0
            };
            assert(batch.len() > 0);
            assert(actions == crate::dispatch::commands(
                DispatchToken { value: self.next_token },
                batch,
            ));
            if sent {
                assert(actions[0] matches ReconcileAction::Command { entity: e, target: t, .. } && e
                    == CommandEntity::Group(self.group_ids[g]) && t == shared);
                if idle.fallback_sent(i, shared, sent, changed) {
                    assert(batch[most + 1] == fallbacks[most]);
                    assert(actions[most + 1] matches ReconcileAction::Command {
                        entity: e,
                        target: t,
                        ..
                    } && e == CommandEntity::Device(self.ids[i]) && t
                        == crate::reconcile::remainder(wanted, shared));
                }
            } else {
                assert(actions[most] matches ReconcileAction::Command { entity: e, target: t, .. }
                    && e == CommandEntity::Device(self.ids[i]) && t == wanted);
            }
        }
    }

    /// What a report says is known from now on, and what it does not say stays known; a
    /// colour takes the place of a warmth and a warmth that of a colour. No other device
    /// is seen otherwise, and no wish changes.
    pub proof fn reports_are_remembered(self, i: int, update: DeviceTarget, now: MonotonicTime)
        requires
            self.wf(),
            0 <= i < self.ids.len(),
            self.devices[i].observed is Some,
            self.observed(i, update, now) is Ok,
        ensures
            ({
                let before = self.devices[i].observed->0;
                let next = self.observed(i, update, now)->Ok_0.0;
                &&& next.devices[i].desired == self.devices[i].desired
                &&& next.devices[i].observed matches Some(seen) && {
                    &&& update.on is Some ==> seen.on == update.on
                    &&& update.on is None ==> seen.on == before.on
                    &&& update.brightness is Some ==> seen.brightness == update.brightness
                    &&& update.brightness is None ==> seen.brightness == before.brightness
                    &&& update.color is Some ==> seen.color == update.color
                        && seen.color_temperature is None
                    &&& update.color is None && update.color_temperature is Some
                        ==> seen.color_temperature == update.color_temperature && seen.color is None
                    &&& update.color is None && update.color_temperature is None ==> seen.color
                        == before.color && seen.color_temperature == before.color_temperature
                }
                &&& forall|j: int|
                    0 <= j < self.ids.len() && j != i ==> #[trigger] next.devices[j]
                        == self.devices[j]
            }),
    {
    }

    /// A device that has started anew is asked what it shows, is taken to show nothing,
    /// and is sent its wish again.
    pub proof fn restarts_send_the_wish_again(self, i: int, now: MonotonicTime)
        requires
            self.wf(),
            0 <= i < self.ids.len(),
            self.can_publish(),
            self.restarted(i, now) is Ok,
        ensures
            ({
                let (next, actions) = self.restarted(i, now)->Ok_0;
                &&& next.devices[i].observed is None
                &&& next.devices[i].desired == self.devices[i].desired
                &&& actions.len() > 0 && actions[0] == ReconcileAction::RequestState(self.ids[i])
                &&& self.devices[i].availability is Online ==> (
                self.devices[i].desired matches Some(wanted) ==> crate::reconcile::asks_nothing(
                    wanted,
                ) || asked(actions, CommandEntity::Device(self.ids[i]), wanted))
            }),
    {
        let state = self.devices[i];
        let (next, actions) = self.restarted(i, now)->Ok_0;
        if let Some(wanted) = state.desired {
            if state.availability is Online && !crate::reconcile::asks_nothing(wanted) {
                let fresh = self.with_device(
                    i,
                    crate::reconcile::DeviceState {
                        observed: None,
                        pending: None,
                        in_sync: state.desired is None,
                        ..state
                    },
                );
                let mask = crate::dispatch::only(self.ids.len(), i);
                let idle = fresh.without_work(mask);
                let attempts = crate::dispatch::first_attempts(
                    fresh.canceled(mask).update(i, true),
                );
                let n = self.ids.len() as int;
                assert(attempts[i] == Some(1u8));
                let batch = idle.outstanding_batch(attempts, n);
                let k = idle.lemma_place(attempts, n, i);
                let affected = Seq::new(idle.ids.len(), |i: int| idle.outstanding(attempts, i));
                assert(affected[i] is Some);
                let more = crate::dispatch::commands(
                    DispatchToken { value: self.next_token },
                    batch,
                );
                assert(actions == seq![ReconcileAction::RequestState(self.ids[i])] + more);
                assert(actions[k + 1] == more[k]);
                assert(asked(actions, CommandEntity::Device(self.ids[i]), wanted));
            }
        }
    }

    /// A device that comes back is sent its wish again; one that goes is sent nothing and
    /// is no longer waited for. Its wish stays either way.
    pub proof fn returning_devices_get_their_wish(
        self,
        i: int,
        availability: Availability,
        now: MonotonicTime,
    )
        requires
            self.wf(),
            0 <= i < self.ids.len(),
            self.can_publish(),
            self.made_available(i, availability, now) is Ok,
        ensures
            ({
                let (next, actions) = self.made_available(i, availability, now)->Ok_0;
                let state = self.devices[i];
                &&& next.devices[i].availability == availability
                &&& next.devices[i].desired == state.desired
                &&& next.devices[i].observed == state.observed
                &&& availability is Online && !(state.availability is Online) ==> (
                state.desired matches Some(wanted) ==> crate::reconcile::asks_nothing(wanted)
                    || asked(actions, CommandEntity::Device(self.ids[i]), wanted))
                &&& availability is Online && state.availability is Online ==> actions.len() == 0
                &&& !(availability is Online) ==> next.devices[i].pending is None && !addressed(
                    actions,
                    CommandEntity::Device(self.ids[i]),
                )
            }),
    {
        let state = self.devices[i];
        let (next, actions) = self.made_available(i, availability, now)->Ok_0;
        let n = self.ids.len() as int;
        if !(availability is Online) {
            let gone = self.with_device(
                i,
                crate::reconcile::DeviceState { availability, pending: None, ..state },
            );
            let mask = crate::dispatch::only(self.ids.len(), i);
            let idle = gone.without_work(mask);
            let attempts = crate::dispatch::first_attempts(gone.canceled(mask));
            let batch = idle.outstanding_batch(attempts, n);
            assert(idle.outstanding(attempts, i) is None);
            if actions.len() > 0 {
                assert(actions == crate::dispatch::commands(
                    DispatchToken { value: self.next_token },
                    batch,
                ));
                assert forall|k: int| 0 <= k < actions.len() implies !(
                #[trigger] actions[k] matches ReconcileAction::Command { entity: e, .. } && e
                    == CommandEntity::Device(self.ids[i])) by {
                    let j = idle.lemma_owner(attempts, n, k);
                    assert(batch[k].0 == CommandEntity::Device(self.ids[j]));
                    lemma_ids_differ(self.ids, i, j);
                }
            }
        } else if !(state.availability is Online) {
            if let Some(wanted) = state.desired {
                if !crate::reconcile::asks_nothing(wanted) {
                    let affected = crate::dispatch::sole(
                        self.ids.len(),
                        i,
                        crate::reconcile::StagedAttempt { target: wanted, attempts: 1 },
                    );
                    assert(affected[i] is Some);
                    assert(actions[0] matches ReconcileAction::Command { entity: e, target: t, .. }
                        && e == CommandEntity::Device(self.ids[i]) && t == wanted);
                }
            }
        }
    }
}

} // verus!
