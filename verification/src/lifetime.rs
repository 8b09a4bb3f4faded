//! What becomes of tokens, batches and group targets as operations follow each other.
use crate::dispatch::{Model, StagedView, Step};
use crate::ordered::OrderedKey;
use crate::reconcile::{
    Availability, CommandEntity, DeviceId, DeviceState, DispatchToken, GroupState,
    ReconcileAction, ReconcileError, StagedAttempt, TransportStatus,
};
use crate::state::MonotonicTime;
use crate::value::{DeviceTarget, LightTarget};
use vstd::prelude::*;

verus! {

/// Something that happens to the reconciler. Devices and groups are given by their
/// positions.
pub enum Operation {
    Connect { now: MonotonicTime },
    Disconnect { now: MonotonicTime },
    Bridge { availability: Availability, now: MonotonicTime },
    Report { device: int, availability: Availability, now: MonotonicTime },
    Desire { device: int, target: LightTarget, now: MonotonicTime },
    DesireGroup { group: int, target: LightTarget, now: MonotonicTime },
    ClearGroup { group: int, now: MonotonicTime },
    Observe { device: int, update: DeviceTarget, now: MonotonicTime },
    Restart { device: int, now: MonotonicTime },
    Refresh { chosen: Seq<DeviceId>, now: MonotonicTime },
    RetryDue { now: MonotonicTime },
    Register {
        token: DispatchToken,
        epoch: MonotonicTime,
        operation_count: usize,
        max_offset_ms: u64,
    },
    Accept { token: DispatchToken, index: usize, now: MonotonicTime },
    Fail { token: DispatchToken, index: usize, now: MonotonicTime },
    Abandon { token: DispatchToken, index: usize, now: MonotonicTime },
    Cancel { token: DispatchToken, now: MonotonicTime },
}

/// A step that asks for no action.
pub open spec fn silent<T>(step: Result<(Model, T), ReconcileError>) -> Step {
    match step {
        Ok((next, _)) => Ok((next, Seq::empty())),
        Err(error) => Err(error),
    }
}

impl Model {
    /// The operation names a device or a group that there is.
    pub open spec fn allows(self, operation: Operation) -> bool {
        match operation {
            Operation::Report { device, .. } => 0 <= device < self.ids.len(),
            Operation::Desire { device, .. } => 0 <= device < self.ids.len(),
            Operation::Observe { device, .. } => 0 <= device < self.ids.len(),
            Operation::Restart { device, .. } => 0 <= device < self.ids.len(),
            Operation::DesireGroup { group, .. } => 0 <= group < self.group_ids.len(),
            Operation::ClearGroup { group, .. } => 0 <= group < self.group_ids.len(),
            _ => true,
        }
    }

    /// What an operation leads to.
    pub open spec fn step(self, operation: Operation) -> Step {
        match operation {
            Operation::Connect { now } => self.transacted(now, self.connected(now)),
            Operation::Disconnect { now } => silent(
                self.completed(now, Ok((self.disconnected(), ()))),
            ),
            Operation::Bridge { availability, now } => self.transacted(
                now,
                self.bridged(availability, now),
            ),
            Operation::Report { device, availability, now } => self.transacted(
                now,
                self.made_available(device, availability, now),
            ),
            Operation::Desire { device, target, now } => self.transacted(
                now,
                self.desired(device, target, now),
            ),
            Operation::DesireGroup { group, target, now } => self.transacted(
                now,
                self.group_desired(group, target, now),
            ),
            Operation::ClearGroup { group, now } => self.transacted(
                now,
                self.group_cleared(group, now),
            ),
            Operation::Observe { device, update, now } => self.transacted(
                now,
                self.observed(device, update, now),
            ),
            Operation::Restart { device, now } => self.transacted(
                now,
                self.restarted(device, now),
            ),
            Operation::Refresh { chosen, now } => self.transacted(
                now,
                self.refreshed(chosen, now),
            ),
            Operation::RetryDue { now } => self.transacted(now, self.due(now)),
            Operation::Register { token, epoch, operation_count, max_offset_ms } => if self.has_token(
                token,
            ) {
                silent(
                    self.completed(
                        epoch,
                        self.registered(token, epoch, operation_count, max_offset_ms),
                    ),
                )
            } else {
                self.nothing()
            },
            Operation::Accept { token, index, now } => silent(
                self.completed(now, self.accepted(token, index, now)),
            ),
            Operation::Fail { token, index, now } => silent(
                self.completed(now, self.failed(token, index, now)),
            ),
            Operation::Abandon { token, index, now } => silent(
                self.completed(now, self.abandoned(token, index)),
            ),
            Operation::Cancel { token, now } => silent(
                self.completed(now, Ok(self.dropped(token))),
            ),
        }
    }

    /// The reconciler after a run of operations; one that fails changes nothing.
    pub open spec fn after(self, run: Seq<Operation>) -> Model
        decreases run.len(),
    {
        if run.len() == 0 {
            self
        } else {
            let before = self.after(run.drop_last());
            match before.step(run.last()) {
                Ok((next, _)) => next,
                Err(_) => before,
            }
        }
    }

    /// Every operation of a run names devices and groups that there are.
    pub open spec fn allows_run(self, run: Seq<Operation>) -> bool {
        forall|k: int| 0 <= k < run.len() ==> self.allows(#[trigger] run[k])
    }
}

// Tokens.

impl Model {
    /// Some staged batch has the token `value`.
    pub open spec fn holds(self, value: u64) -> bool {
        exists|k: int| 0 <= k < self.staged.len() && (#[trigger] self.staged[k]).token == value
    }

    /// Batches are either older ones or have new tokens.
    spec fn follows(self, old: Model) -> bool {
        &&& old.next_token <= self.next_token
        &&& forall|k: int|
            0 <= k < self.staged.len() ==> old.holds((#[trigger] self.staged[k]).token)
                || self.staged[k].token >= old.next_token
    }

    proof fn lemma_follows(self, middle: Model, old: Model)
        requires
            self.follows(middle),
            middle.follows(old),
        ensures
            self.follows(old),
    {
        assert forall|k: int| 0 <= k < self.staged.len() implies old.holds(
            (#[trigger] self.staged[k]).token,
        ) || self.staged[k].token >= old.next_token by {
            if middle.holds(self.staged[k].token) {
                let j = choose|j: int|
                    0 <= j < middle.staged.len() && (#[trigger] middle.staged[j]).token
                        == self.staged[k].token;
                assert(middle.staged[j].token == self.staged[k].token);
            }
        }
    }

    proof fn lemma_same_follows(self, old: Model)
        requires
            self.staged == old.staged,
            self.next_token == old.next_token,
        ensures
            self.follows(old),
    {
        assert forall|k: int| 0 <= k < self.staged.len() implies old.holds(
            (#[trigger] self.staged[k]).token,
        ) by {
            assert(old.staged[k].token == self.staged[k].token);
        }
    }
}

/// No command carries a token below `value`.
pub open spec fn fresh(actions: Seq<ReconcileAction>, value: u64) -> bool {
    forall|k: int|
        0 <= k < actions.len() ==> ((#[trigger] actions[k]) matches ReconcileAction::Command {
            token,
            ..
        } ==> value <= token.value)
}

// What a step leaves alone.

impl Model {
    /// Device `i` waits for nothing and takes part in no batch.
    pub open spec fn at_rest(self, i: int) -> bool {
        &&& self.devices[i].pending is None
        &&& !self.scheduled(i)
    }

    /// No two devices and no two groups have one name.
    spec fn named_apart(self) -> bool {
        &&& forall|i: int, j: int|
            0 <= i < j < self.ids.len() ==> #[trigger] self.ids[i] != #[trigger] self.ids[j]
        &&& forall|g: int, h: int|
            0 <= g < h < self.group_ids.len() ==> #[trigger] self.group_ids[g]
                != #[trigger] self.group_ids[h]
        &&& self.groups.len() == self.group_ids.len()
    }

    proof fn lemma_named_apart(self)
        requires
            self.wf(),
        ensures
            self.named_apart(),
    {
        assert forall|i: int, j: int| 0 <= i < j < self.ids.len() implies #[trigger] self.ids[i]
            != #[trigger] self.ids[j] by {
            crate::text::before_irreflexive(self.ids[i].key());
        }
        assert forall|g: int, h: int| 0 <= g < h < self.group_ids.len() implies
            #[trigger] self.group_ids[g] != #[trigger] self.group_ids[h] by {
            crate::text::before_irreflexive(crate::text::bytes_of(self.group_ids[g].text@));
        }
    }

    /// There is a device at `still` only if it is at rest, and a group at `quiet` only
    /// if it has no target.
    spec fn spared(self, still: int, quiet: int) -> bool {
        &&& self.named_apart()
        &&& 0 <= still < self.ids.len() ==> self.at_rest(still)
        &&& 0 <= quiet < self.group_ids.len() ==> self.groups[quiet].command_target is None
    }

    /// A batch leaves device `still` and group `quiet` alone.
    spec fn passes_over(
        self,
        batch: Seq<(CommandEntity, DeviceTarget)>,
        affected: Seq<Option<StagedAttempt>>,
        still: int,
        quiet: int,
    ) -> bool {
        &&& 0 <= still < self.ids.len() ==> affected[still] is None && forall|k: int|
            0 <= k < batch.len() ==> (#[trigger] batch[k]).0 != CommandEntity::Device(
                self.ids[still],
            )
        &&& 0 <= quiet < self.group_ids.len() ==> forall|k: int|
            0 <= k < batch.len() ==> (#[trigger] batch[k]).0 != CommandEntity::Group(
                self.group_ids[quiet],
            )
    }

    /// No command among `actions` goes to `entity`.
    pub open spec fn avoids(actions: Seq<ReconcileAction>, entity: CommandEntity) -> bool {
        forall|k: int|
            0 <= k < actions.len() ==> !((#[trigger] actions[k]) matches ReconcileAction::Command {
                entity: addressee,
                ..
            } && addressee == entity)
    }

    /// Nothing goes to device `still` or group `quiet`.
    spec fn untold(self, actions: Seq<ReconcileAction>, still: int, quiet: int) -> bool {
        &&& 0 <= still < self.ids.len() ==> Model::avoids(
            actions,
            CommandEntity::Device(self.ids[still]),
        )
        &&& 0 <= quiet < self.group_ids.len() ==> Model::avoids(
            actions,
            CommandEntity::Group(self.group_ids[quiet]),
        )
    }

    /// The step changes only the work under way, gives new batches new tokens, and
    /// leaves device `still` and group `quiet` alone.
    spec fn tidy(self, step: Step, still: int, quiet: int) -> bool {
        step matches Ok((next, actions)) ==> {
            &&& next.same_base(self)
            &&& next.follows(self)
            &&& fresh(actions, self.next_token)
            &&& self.untold(actions, still, quiet)
            &&& next.spared(still, quiet)
        }
    }

    proof fn lemma_both_untold(
        self,
        first: Seq<ReconcileAction>,
        second: Seq<ReconcileAction>,
        value: u64,
        still: int,
        quiet: int,
    )
        requires
            self.untold(first, still, quiet),
            self.untold(second, still, quiet),
            fresh(first, value),
            fresh(second, value),
        ensures
            self.untold(first + second, still, quiet),
            fresh(first + second, value),
    {
        let both = first + second;
        assert forall|k: int| 0 <= k < both.len() implies #[trigger] both[k] == if k < first.len() {
            first[k]
        } else {
            second[k - first.len()]
        } by {}
    }

    /// One tidy step after another is tidy.
    proof fn lemma_tidy_then(
        self,
        next: Model,
        actions: Seq<ReconcileAction>,
        last: Model,
        more: Seq<ReconcileAction>,
        still: int,
        quiet: int,
    )
        requires
            self.tidy(Ok((next, actions)), still, quiet),
            next.tidy(Ok((last, more)), still, quiet),
        ensures
            self.tidy(Ok((last, actions + more)), still, quiet),
    {
        last.lemma_follows(next, self);
        assert(fresh(more, self.next_token));
        self.lemma_both_untold(actions, more, self.next_token, still, quiet);
    }

    proof fn lemma_tidy_nothing(self, still: int, quiet: int)
        requires
            self.spared(still, quiet),
        ensures
            self.tidy(self.nothing(), still, quiet),
    {
        self.lemma_same_follows(self);
    }

    proof fn lemma_tidy_dispatched(
        self,
        batch: Seq<(CommandEntity, DeviceTarget)>,
        affected: Seq<Option<StagedAttempt>>,
        now: MonotonicTime,
        still: int,
        quiet: int,
    )
        requires
            self.spared(still, quiet),
            self.passes_over(batch, affected, still, quiet),
        ensures
            self.tidy(self.dispatched(batch, affected, now), still, quiet),
    {
        self.lemma_tidy_nothing(still, quiet);
        if let Ok((next, actions)) = self.dispatched(batch, affected, now) {
            if next.staged.len() > self.staged.len() {
                assert forall|k: int| 0 <= k < next.staged.len() implies self.holds(
                    (#[trigger] next.staged[k]).token,
                ) || next.staged[k].token >= self.next_token by {
                    if k < self.staged.len() {
                        assert(self.staged[k].token == next.staged[k].token);
                    }
                }
                if 0 <= still < self.ids.len() {
                    assert forall|k: int| 0 <= k < next.staged.len() implies (
                    #[trigger] next.staged[k]).affected[still] is None by {
                        if k < self.staged.len() {
                            assert(self.staged[k].affected[still] is None);
                        }
                    }
                    assert(next.at_rest(still));
                }
            }
        }
    }

    proof fn lemma_tidy_restaged(
        self,
        attempts: Seq<Option<u8>>,
        now: MonotonicTime,
        still: int,
        quiet: int,
    )
        requires
            self.spared(still, quiet),
            0 <= still < self.ids.len() ==> attempts[still] is None,
        ensures
            self.tidy(self.restaged(attempts, now), still, quiet),
    {
        self.lemma_tidy_nothing(still, quiet);
        let n = self.ids.len() as int;
        let batch = self.outstanding_batch(attempts, n);
        let affected = Seq::new(self.ids.len(), |i: int| self.outstanding(attempts, i));
        self.lemma_outstanding_listed(attempts, n);
        if 0 <= still < n {
            assert forall|k: int| 0 <= k < batch.len() implies (#[trigger] batch[k]).0
                != CommandEntity::Device(self.ids[still]) by {
                let j = choose|j: int|
                    0 <= j < n && attempts[j] is Some && batch[k].0 == CommandEntity::Device(
                        #[trigger] self.ids[j],
                    );
                assert(j != still);
            }
        }
        self.lemma_tidy_dispatched(batch, affected, now, still, quiet);
    }

    proof fn lemma_tidy_commanded(
        self,
        i: int,
        attempts: u8,
        now: MonotonicTime,
        still: int,
        quiet: int,
    )
        requires
            self.spared(still, quiet),
            0 <= i < self.ids.len(),
            i != still,
        ensures
            self.tidy(self.commanded(i, attempts, now), still, quiet),
    {
        self.lemma_tidy_nothing(still, quiet);
        if let Some(target) = self.devices[i].desired {
            if 0 <= still < self.ids.len() {
                assert(self.ids[i] != self.ids[still]);
            }
            self.lemma_tidy_dispatched(
                seq![(CommandEntity::Device(self.ids[i]), target)],
                crate::dispatch::sole(self.ids.len(), i, StagedAttempt { target, attempts }),
                now,
                still,
                quiet,
            );
        }
    }

    proof fn lemma_fallback_only(
        self,
        members: Seq<bool>,
        target: DeviceTarget,
        sent: bool,
        changed: Seq<bool>,
        n: int,
    )
        requires
            0 <= n <= self.ids.len(),
        ensures
            forall|k: int|
                0 <= k < self.fallback_batch(members, target, sent, changed, n).len() ==> exists|
                    j: int,
                |
                    0 <= j < n && members[j] && (#[trigger] self.fallback_batch(
                        members,
                        target,
                        sent,
                        changed,
                        n,
                    )[k]).0 == CommandEntity::Device(#[trigger] self.ids[j]),
        decreases n,
    {
        if n > 0 {
            self.lemma_fallback_only(members, target, sent, changed, n - 1);
            let rest = self.fallback_batch(members, target, sent, changed, n - 1);
            let all = self.fallback_batch(members, target, sent, changed, n);
            assert forall|k: int| 0 <= k < all.len() implies exists|j: int|
                0 <= j < n && members[j] && (#[trigger] all[k]).0 == CommandEntity::Device(
                    #[trigger] self.ids[j],
                ) by {
                if k < rest.len() {
                    assert(all[k] == rest[k]);
                    let j = choose|j: int|
                        0 <= j < n - 1 && members[j] && rest[k].0 == CommandEntity::Device(
                            #[trigger] self.ids[j],
                        );
                    assert(all[k].0 == CommandEntity::Device(self.ids[j]));
                } else {
                    assert(all[k].0 == CommandEntity::Device(self.ids[n - 1]));
                }
            }
        }
    }

    proof fn lemma_tidy_group_commanded(
        self,
        g: int,
        target: DeviceTarget,
        send: bool,
        changed: Seq<bool>,
        now: MonotonicTime,
        still: int,
        quiet: int,
    )
        requires
            self.spared(still, quiet),
            0 <= g < self.group_ids.len(),
            g != quiet,
            0 <= still < self.ids.len() ==> !self.members(g)[still],
        ensures
            self.tidy(self.group_commanded(g, target, send, changed, now), still, quiet),
    {
        self.lemma_tidy_nothing(still, quiet);
        let n = self.ids.len() as int;
        let members = self.members(g);
        let sent = self.group_sent(members, target, send);
        let fallbacks = self.fallback_batch(members, target, sent, changed, n);
        self.lemma_fallback_only(members, target, sent, changed, n);
        let batch = if sent {
            seq![(CommandEntity::Group(self.group_ids[g]), target)] + fallbacks
        } else {
            fallbacks
        };
        let affected = Seq::new(
            self.ids.len(),
            |i: int|
                if members[i] && self.online(i) && (sent || self.fallback_sent(
                    i,
                    target,
                    sent,
                    changed,
                )) {
                    Some(StagedAttempt { target: self.devices[i].desired->0, attempts: 1u8 })
                } else {
                    None
                },
        );
        assert forall|k: int| 0 <= k < batch.len() implies {
            &&& 0 <= still < n ==> (#[trigger] batch[k]).0 != CommandEntity::Device(
                self.ids[still],
            )
            &&& 0 <= quiet < self.group_ids.len() ==> batch[k].0 != CommandEntity::Group(
                self.group_ids[quiet],
            )
        } by {
            if sent && k == 0 {
                if 0 <= quiet < self.group_ids.len() {
                    assert(self.group_ids[g] != self.group_ids[quiet]);
                }
            } else {
                let l = if sent {
                    k - 1
                } else {
                    k
                };
                assert(batch[k] == fallbacks[l]);
                let j = choose|j: int|
                    0 <= j < n && members[j] && fallbacks[l].0 == CommandEntity::Device(
                        #[trigger] self.ids[j],
                    );
                if 0 <= still < n {
                    assert(j != still);
                    assert(self.ids[j] != self.ids[still]);
                }
            }
        }
        self.lemma_tidy_dispatched(batch, affected, now, still, quiet);
    }

    proof fn lemma_tidy_groups_commanded(self, n: int, now: MonotonicTime, quiet: int)
        requires
            self.spared(-1, quiet),
            n <= self.group_ids.len(),
        ensures
            self.tidy(self.groups_commanded(n, now), -1, quiet),
        decreases n,
    {
        self.lemma_tidy_nothing(-1, quiet);
        if n > 0 {
            self.lemma_tidy_groups_commanded(n - 1, now, quiet);
            if let Ok((next, actions)) = self.groups_commanded(n - 1, now) {
                if let Some(target) = self.groups[n - 1].command_target {
                    let members = next.members(n - 1);
                    next.lemma_tidy_group_commanded(n - 1, target, true, members, now, -1, quiet);
                    if let Ok((last, more)) = next.group_commanded(
                        n - 1,
                        target,
                        true,
                        members,
                        now,
                    ) {
                        self.lemma_tidy_then(next, actions, last, more, -1, quiet);
                    }
                }
            }
        }
    }

    proof fn lemma_tidy_singles_commanded(
        self,
        start: Step,
        n: int,
        now: MonotonicTime,
        quiet: int,
    )
        requires
            self.tidy(start, -1, quiet),
            n <= self.ids.len(),
        ensures
            self.tidy(self.singles_commanded(start, n, now), -1, quiet),
        decreases n,
    {
        if n > 0 {
            self.lemma_tidy_singles_commanded(start, n - 1, now, quiet);
            if let Ok((next, actions)) = self.singles_commanded(start, n - 1, now) {
                next.lemma_tidy_commanded(n - 1, 1, now, -1, quiet);
                if let Ok((last, more)) = next.commanded(n - 1, 1, now) {
                    self.lemma_tidy_then(next, actions, last, more, -1, quiet);
                }
            }
        }
    }

    proof fn lemma_tidy_all_commanded(self, now: MonotonicTime, quiet: int)
        requires
            self.spared(-1, quiet),
        ensures
            self.tidy(self.all_commanded(now), -1, quiet),
    {
        self.lemma_tidy_nothing(-1, quiet);
        self.lemma_tidy_groups_commanded(self.groups.len() as int, now, quiet);
        self.lemma_tidy_singles_commanded(
            self.groups_commanded(self.groups.len() as int, now),
            self.ids.len() as int,
            now,
            quiet,
        );
    }

    proof fn lemma_tidy_chosen_commanded(
        self,
        chosen: Seq<DeviceId>,
        n: int,
        now: MonotonicTime,
        quiet: int,
    )
        requires
            self.spared(-1, quiet),
        ensures
            self.tidy(self.chosen_commanded(chosen, n, now), -1, quiet),
        decreases n,
    {
        self.lemma_tidy_nothing(-1, quiet);
        if n > 0 {
            self.lemma_tidy_chosen_commanded(chosen, n - 1, now, quiet);
            if let Ok((next, actions)) = self.chosen_commanded(chosen, n - 1, now) {
                if next.knows(chosen[n - 1]) {
                    let i = next.place(chosen[n - 1]);
                    next.lemma_tidy_commanded(i, 1, now, -1, quiet);
                    if let Ok((last, more)) = next.commanded(i, 1, now) {
                        self.lemma_tidy_then(next, actions, last, more, -1, quiet);
                    }
                }
            }
        }
    }

    /// Sweeping leaves older batches, and puts off only what was staged.
    proof fn lemma_tidy_swept(self, n: int, now: MonotonicTime, still: int, quiet: int)
        requires
            self.wf(),
            self.spared(still, quiet),
            n <= self.staged.len(),
        ensures
            self.swept(n, now) matches Ok(next) ==> {
                &&& next.same_base(self)
                &&& next.next_token == self.next_token
                &&& forall|k: int|
                    0 <= k < next.staged.len() ==> exists|j: int|
                        0 <= j < n && self.staged[j] == #[trigger] next.staged[k]
                &&& next.follows(self)
                &&& next.spared(still, quiet)
            },
        decreases n,
    {
        if n > 0 {
            self.lemma_tidy_swept(n - 1, now, still, quiet);
            if let Ok(before) = self.swept(n - 1, now) {
                if let Ok(next) = self.swept(n, now) {
                    let entry = self.staged[n - 1];
                    assert forall|k: int| 0 <= k < next.staged.len() implies exists|j: int|
                        0 <= j < n && self.staged[j] == #[trigger] next.staged[k] by {
                        if k < before.staged.len() {
                            assert(next.staged[k] == before.staged[k]);
                            let j = choose|j: int|
                                0 <= j < n - 1 && self.staged[j] == before.staged[k];
                            assert(self.staged[j] == next.staged[k]);
                        } else {
                            assert(self.staged[n - 1] == next.staged[k]);
                        }
                    }
                    assert forall|k: int| 0 <= k < next.staged.len() implies self.holds(
                        (#[trigger] next.staged[k]).token,
                    ) by {
                        let j = choose|j: int|
                            0 <= j < n && self.staged[j] == #[trigger] next.staged[k];
                        assert(self.staged[j].token == next.staged[k].token);
                    }
                    if 0 <= still < self.ids.len() {
                        assert(entry.affected[still] is None);
                        assert(self.staged_entry_wf(entry));
                        assert forall|k: int| 0 <= k < next.staged.len() implies (
                        #[trigger] next.staged[k]).affected[still] is None by {
                            let j = choose|j: int|
                                0 <= j < n && self.staged[j] == #[trigger] next.staged[k];
                            assert(self.staged[j].affected[still] is None);
                        }
                        assert forall|k: int| 0 <= k < next.deferred.len() implies (
                        #[trigger] next.deferred[k]).attempts[still] is None by {
                            if k < before.deferred.len() {
                                assert(before.deferred[k].attempts[still] is None);
                            }
                        }
                        assert(next.at_rest(still));
                    }
                }
            }
        }
    }

    proof fn lemma_tidy_released(self, n: int, now: MonotonicTime, still: int, quiet: int)
        requires
            self.spared(still, quiet),
            n <= self.deferred.len(),
        ensures
            self.tidy(self.released(n, now), still, quiet),
        decreases n,
    {
        if n <= 0 {
            (Model { deferred: Seq::empty(), ..self }).lemma_same_follows(self);
        } else {
            self.lemma_tidy_released(n - 1, now, still, quiet);
            if let Ok((next, actions)) = self.released(n - 1, now) {
                let entry = self.deferred[n - 1];
                if 0 <= still < self.ids.len() {
                    assert(entry.attempts[still] is None);
                }
                if entry.retry_deadline.value.at_most(now.value) {
                    next.lemma_tidy_restaged(entry.attempts, now, still, quiet);
                    if let Ok((last, more)) = next.restaged(entry.attempts, now) {
                        self.lemma_tidy_then(next, actions, last, more, still, quiet);
                    }
                } else {
                    let last = Model { deferred: next.deferred.push(entry), ..next };
                    last.lemma_same_follows(next);
                    last.lemma_follows(next, self);
                    if 0 <= still < self.ids.len() {
                        assert forall|k: int| 0 <= k < last.deferred.len() implies (
                        #[trigger] last.deferred[k]).attempts[still] is None by {
                            if k < next.deferred.len() {
                                assert(next.deferred[k].attempts[still] is None);
                            }
                        }
                        assert(last.at_rest(still));
                    }
                }
            }
        }
    }

    proof fn lemma_tidy_retried(self, n: int, now: MonotonicTime, still: int, quiet: int)
        requires
            self.spared(still, quiet),
            n <= self.ids.len(),
        ensures
            self.tidy(self.retried(n, now), still, quiet),
        decreases n,
    {
        self.lemma_tidy_nothing(still, quiet);
        if n > 0 {
            self.lemma_tidy_retried(n - 1, now, still, quiet);
            if let Ok((next, actions)) = self.retried(n - 1, now) {
                if self.overdue(n - 1, now) {
                    let pending = self.devices[n - 1].pending->0;
                    let batch = seq![
                        (CommandEntity::Device(self.ids[n - 1]), pending.target),
                    ];
                    let affected = crate::dispatch::sole(
                        self.ids.len(),
                        n - 1,
                        StagedAttempt {
                            target: pending.target,
                            attempts: (pending.attempts + 1) as u8,
                        },
                    );
                    if 0 <= still < self.ids.len() {
                        assert(self.ids[n - 1] != self.ids[still]);
                    }
                    next.lemma_tidy_dispatched(batch, affected, now, still, quiet);
                    if let Ok((last, more)) = next.dispatched(batch, affected, now) {
                        self.lemma_tidy_then(next, actions, last, more, still, quiet);
                    }
                }
            }
        }
    }

    proof fn lemma_tidy_due(self, now: MonotonicTime, still: int, quiet: int)
        requires
            self.wf(),
            self.spared(still, quiet),
        ensures
            self.tidy(self.due(now), still, quiet),
    {
        let n = self.staged.len() as int;
        self.lemma_tidy_swept(n, now, still, quiet);
        if let Ok(next) = self.swept(n, now) {
            let empty = Seq::<ReconcileAction>::empty();
            let m = next.deferred.len() as int;
            next.lemma_tidy_nothing(still, quiet);
            if next.can_publish() {
                next.lemma_tidy_released(m, now, still, quiet);
                if let Ok((later, actions)) = next.released(m, now) {
                    self.lemma_tidy_then(next, empty, later, actions, still, quiet);
                    assert(empty + actions =~= actions);
                    let l = later.ids.len() as int;
                    later.lemma_tidy_retried(l, now, still, quiet);
                    if let Ok((last, more)) = later.retried(l, now) {
                        self.lemma_tidy_then(later, actions, last, more, still, quiet);
                    }
                }
            }
        }
    }
}

// Every operation.

impl Model {
    /// The operation neither changes what device `i` wants or how it is reached, nor
    /// asks to send anything to it again.
    pub open spec fn concerns_others(self, operation: Operation, i: int) -> bool {
        match operation {
            Operation::Connect { .. } => false,
            Operation::Disconnect { .. } => false,
            Operation::Bridge { .. } => false,
            Operation::Refresh { .. } => false,
            Operation::Report { device, .. } => device != i,
            Operation::Desire { device, .. } => device != i,
            Operation::Restart { device, .. } => device != i,
            Operation::DesireGroup { group, .. } => !self.members(group)[i],
            Operation::ClearGroup { group, .. } => !self.members(group)[i],
            _ => true,
        }
    }

    /// The operation sets the target of group `g`.
    pub open spec fn sets_group(operation: Operation, g: int) -> bool {
        operation matches Operation::DesireGroup { group, .. } && group == g
    }

    /// Names and memberships are the same.
    pub open spec fn same_names(self, other: Model) -> bool {
        &&& self.ids == other.ids
        &&& self.group_of == other.group_of
        &&& self.group_ids == other.group_ids
        &&& self.groups.len() == other.groups.len()
    }

    /// As `tidy`, where devices and groups may change as well.
    spec fn well_led(self, step: Step, still: int, quiet: int) -> bool {
        step matches Ok((next, actions)) ==> {
            &&& next.same_names(self)
            &&& next.follows(self)
            &&& fresh(actions, self.next_token)
            &&& self.untold(actions, still, quiet)
            &&& next.spared(still, quiet)
        }
    }

    /// A tidy step from a model that was led to well.
    proof fn lemma_led_on(self, middle: Model, step: Step, still: int, quiet: int)
        requires
            middle.same_names(self),
            middle.follows(self),
            middle.next_token == self.next_token,
            middle.tidy(step, still, quiet),
        ensures
            self.well_led(step, still, quiet),
    {
        if let Ok((next, actions)) = step {
            next.lemma_follows(middle, self);
        }
    }

    proof fn lemma_transacted(self, now: MonotonicTime, step: Step, still: int, quiet: int)
        requires
            self.well_led(step, still, quiet),
        ensures
            self.well_led(self.transacted(now, step), still, quiet),
    {
        if let Ok((next, actions)) = step {
            let noted = Model { last_time: Some(now), ..next };
            noted.lemma_same_follows(next);
            noted.lemma_follows(next, self);
        }
    }

    /// Dropping work leaves older batches and what is at rest.
    proof fn lemma_without_work(self, mask: Seq<bool>, still: int, quiet: int)
        requires
            self.spared(still, quiet),
        ensures
            self.without_work(mask).follows(self),
            self.without_work(mask).spared(still, quiet),
            0 <= still < self.ids.len() ==> !self.canceled(mask)[still],
    {
        let next = self.without_work(mask);
        crate::dispatch::lemma_staged_outside(self.staged, mask);
        crate::dispatch::lemma_deferred_outside(self.deferred, mask);
        assert forall|k: int| 0 <= k < next.staged.len() implies self.holds(
            (#[trigger] next.staged[k]).token,
        ) by {
            assert(self.staged.contains(next.staged[k]));
            let j = self.staged.index_of(next.staged[k]);
            assert(self.staged[j].token == next.staged[k].token);
        }
        if 0 <= still < self.ids.len() {
            assert forall|k: int| 0 <= k < next.staged.len() implies (
            #[trigger] next.staged[k]).affected[still] is None by {
                assert(self.staged.contains(next.staged[k]));
                let j = self.staged.index_of(next.staged[k]);
                assert(self.staged[j].affected[still] is None);
            }
            assert forall|k: int| 0 <= k < next.deferred.len() implies (
            #[trigger] next.deferred[k]).attempts[still] is None by {
                assert(self.deferred.contains(next.deferred[k]));
                let j = self.deferred.index_of(next.deferred[k]);
                assert(self.deferred[j].attempts[still] is None);
            }
            assert(next.at_rest(still));
            assert forall|k: int| 0 <= k < self.staged.len() implies (
            #[trigger] self.staged[k]).affected[still] is None by {}
        }
    }

    /// Work is dropped and what it touched is staged anew.
    proof fn lemma_led_restaged(
        self,
        middle: Model,
        mask: Seq<bool>,
        attempts: Seq<Option<u8>>,
        now: MonotonicTime,
        still: int,
        quiet: int,
    )
        requires
            middle.same_names(self),
            middle.staged == self.staged,
            middle.next_token == self.next_token,
            middle.spared(still, quiet),
            0 <= still < self.ids.len() ==> attempts[still] is None,
        ensures
            self.well_led(middle.without_work(mask).restaged(attempts, now), still, quiet),
    {
        let idle = middle.without_work(mask);
        middle.lemma_same_follows(self);
        middle.lemma_without_work(mask, still, quiet);
        idle.lemma_follows(middle, self);
        idle.lemma_tidy_restaged(attempts, now, still, quiet);
        self.lemma_led_on(idle, idle.restaged(attempts, now), still, quiet);
    }

    proof fn lemma_led_nothing(self, middle: Model, still: int, quiet: int)
        requires
            middle.same_names(self),
            middle.staged == self.staged,
            middle.next_token == self.next_token,
            middle.spared(still, quiet),
        ensures
            self.well_led(middle.nothing(), still, quiet),
    {
        middle.lemma_same_follows(self);
    }

    proof fn lemma_led_desired(
        self,
        i: int,
        target: LightTarget,
        now: MonotonicTime,
        still: int,
        quiet: int,
    )
        requires
            self.spared(still, quiet),
            0 <= i < self.ids.len() == self.devices.len(),
            i != still,
        ensures
            self.well_led(self.desired(i, target, now), still, quiet),
    {
        let state = self.devices[i];
        let wanted = state.capabilities.degraded(target);
        let next = self.with_device(i, state.desiring(wanted));
        let mask = crate::dispatch::only(self.ids.len(), i);
        let attempts = crate::dispatch::first_attempts(
            next.canceled(mask).update(i, !state.desiring(wanted).in_sync),
        );
        self.lemma_led_nothing(self, still, quiet);
        next.lemma_without_work(mask, still, quiet);
        self.lemma_led_restaged(next, mask, attempts, now, still, quiet);
    }

    proof fn lemma_led_reported(
        self,
        i: int,
        availability: Availability,
        now: MonotonicTime,
        still: int,
        quiet: int,
    )
        requires
            self.spared(still, quiet),
            0 <= i < self.ids.len() == self.devices.len(),
            i != still,
        ensures
            self.well_led(self.made_available(i, availability, now), still, quiet),
    {
        let state = self.devices[i];
        let next = self.with_device(
            i,
            DeviceState {
                availability,
                pending: if availability is Online {
                    state.pending
                } else {
                    None
                },
                ..state
            },
        );
        let mask = crate::dispatch::only(self.ids.len(), i);
        let attempts = crate::dispatch::first_attempts(next.canceled(mask));
        self.lemma_led_nothing(next, still, quiet);
        next.lemma_same_follows(self);
        next.lemma_tidy_commanded(i, 1, now, still, quiet);
        self.lemma_led_on(next, next.commanded(i, 1, now), still, quiet);
        next.lemma_without_work(mask, still, quiet);
        self.lemma_led_restaged(next, mask, attempts, now, still, quiet);
    }

    proof fn lemma_led_observed(
        self,
        i: int,
        update: DeviceTarget,
        now: MonotonicTime,
        still: int,
        quiet: int,
    )
        requires
            self.spared(still, quiet),
            0 <= i < self.ids.len() == self.devices.len(),
        ensures
            self.well_led(self.observed(i, update, now), still, quiet),
    {
        let state = self.devices[i];
        let seen = crate::reconcile::merged(state.observed, update);
        let in_sync = crate::reconcile::synchronized(
            state.desired,
            Some(seen),
            state.color_policy,
        );
        let next = self.with_device(
            i,
            DeviceState {
                observed: Some(seen),
                in_sync,
                pending: if in_sync {
                    None
                } else {
                    state.pending
                },
                ..state
            },
        );
        let mask = crate::dispatch::only(self.ids.len(), i);
        let attempts = crate::dispatch::first_attempts(next.canceled(mask).update(i, false));
        self.lemma_led_nothing(next, still, quiet);
        next.lemma_without_work(mask, still, quiet);
        self.lemma_led_restaged(next, mask, attempts, now, still, quiet);
    }

    proof fn lemma_led_restarted(self, i: int, now: MonotonicTime, still: int, quiet: int)
        requires
            self.spared(still, quiet),
            0 <= i < self.ids.len() == self.devices.len(),
            i != still,
        ensures
            self.well_led(self.restarted(i, now), still, quiet),
    {
        let state = self.devices[i];
        let next = self.with_device(
            i,
            DeviceState {
                observed: None,
                pending: None,
                in_sync: state.desired is None,
                ..state
            },
        );
        let mask = crate::dispatch::only(self.ids.len(), i);
        let attempts = crate::dispatch::first_attempts(next.canceled(mask).update(i, true));
        let idle = next.without_work(mask);
        next.lemma_same_follows(self);
        next.lemma_without_work(mask, still, quiet);
        idle.lemma_follows(next, self);
        idle.lemma_tidy_nothing(still, quiet);
        self.lemma_led_on(idle, idle.nothing(), still, quiet);
        self.lemma_led_restaged(next, mask, attempts, now, still, quiet);
        if let Ok((last, actions)) = idle.restaged(attempts, now) {
            self.lemma_both_untold(
                seq![ReconcileAction::RequestState(self.ids[i])],
                actions,
                self.next_token,
                still,
                quiet,
            );
        }
    }

    proof fn lemma_led_group_desired(
        self,
        g: int,
        target: LightTarget,
        now: MonotonicTime,
        still: int,
        quiet: int,
    )
        requires
            self.spared(still, quiet),
            self.devices.len() == self.ids.len(),
            0 <= g < self.group_ids.len(),
            g != quiet,
            0 <= still < self.ids.len() ==> !self.members(g)[still],
        ensures
            self.well_led(self.group_desired(g, target, now), still, quiet),
    {
        let group = self.groups[g];
        let wanted = group.capabilities.degraded(target);
        let changed = self.changed_members(g, target);
        let next = self.with_group_target(g, target);
        let canceled = next.canceled(changed);
        let idle = next.without_work(changed);
        let attempts = crate::dispatch::first_attempts(crate::dispatch::either(canceled, changed));
        let send = !(group.command_target matches Some(target) && target.same(wanted));
        self.lemma_led_nothing(self, still, quiet);
        next.lemma_same_follows(self);
        next.lemma_without_work(changed, still, quiet);
        idle.lemma_follows(next, self);
        self.lemma_led_restaged(next, changed, attempts, now, still, quiet);
        assert(idle.members(g) =~= self.members(g));
        idle.lemma_tidy_group_commanded(g, wanted, send, changed, now, still, quiet);
        self.lemma_led_on(
            idle,
            idle.group_commanded(g, wanted, send, changed, now),
            still,
            quiet,
        );
    }

    proof fn lemma_led_group_cleared(self, g: int, now: MonotonicTime, still: int, quiet: int)
        requires
            self.spared(still, quiet),
            0 <= g < self.group_ids.len(),
            0 <= still < self.ids.len() ==> !self.members(g)[still],
        ensures
            self.well_led(self.group_cleared(g, now), still, quiet),
    {
        let group = self.groups[g];
        let next = Model {
            groups: self.groups.update(
                g,
                GroupState { logical_desired: None, command_target: None, ..group },
            ),
            ..self
        };
        let members = self.members(g);
        let attempts = crate::dispatch::first_attempts(
            crate::dispatch::either(next.canceled(members), members),
        );
        self.lemma_led_nothing(self, still, quiet);
        next.lemma_without_work(members, still, quiet);
        self.lemma_led_restaged(next, members, attempts, now, still, quiet);
    }

    proof fn lemma_led_connected(self, now: MonotonicTime, quiet: int)
        requires
            self.spared(-1, quiet),
        ensures
            self.well_led(self.connected(now), -1, quiet),
    {
        let next = Model { transport: TransportStatus::Connected, ..self };
        self.lemma_led_nothing(self, -1, quiet);
        next.lemma_same_follows(self);
        next.lemma_tidy_all_commanded(now, quiet);
        self.lemma_led_on(next, next.all_commanded(now), -1, quiet);
        if let Ok((last, actions)) = next.all_commanded(now) {
            self.lemma_both_untold(self.greetings(), actions, self.next_token, -1, quiet);
        }
    }

    proof fn lemma_led_bridged(self, availability: Availability, now: MonotonicTime, quiet: int)
        requires
            self.spared(-1, quiet),
        ensures
            self.well_led(self.bridged(availability, now), -1, quiet),
    {
        let next = if availability is Online {
            self
        } else {
            self.idle()
        };
        let next = Model { bridge: availability, ..next };
        assert(next.follows(self)) by {
            if availability is Online {
                next.lemma_same_follows(self);
            }
        }
        next.lemma_tidy_nothing(-1, quiet);
        self.lemma_led_on(next, next.nothing(), -1, quiet);
        next.lemma_tidy_all_commanded(now, quiet);
        self.lemma_led_on(next, next.all_commanded(now), -1, quiet);
    }

    /// A batch whose plan or progress changes keeps its token and its devices.
    proof fn lemma_led_plan(self, k: int, entry: StagedView, still: int, quiet: int)
        requires
            self.spared(still, quiet),
            0 <= k < self.staged.len(),
            entry.token == self.staged[k].token,
            entry.affected == self.staged[k].affected,
        ensures
            self.well_led(self.with_staged(k, entry).nothing(), still, quiet),
    {
        let next = self.with_staged(k, entry);
        assert forall|l: int| 0 <= l < next.staged.len() implies self.holds(
            (#[trigger] next.staged[l]).token,
        ) by {
            assert(self.staged[l].token == next.staged[l].token);
        }
        if 0 <= still < self.ids.len() {
            assert forall|l: int| 0 <= l < next.staged.len() implies (
            #[trigger] next.staged[l]).affected[still] is None by {
                assert(self.staged[l].affected[still] is None);
            }
            assert(next.at_rest(still));
        }
    }

    /// A batch that is over leaves the others.
    proof fn lemma_led_removed(
        self,
        k: int,
        devices: Seq<DeviceState>,
        still: int,
        quiet: int,
    )
        requires
            self.spared(still, quiet),
            0 <= k < self.staged.len(),
            0 <= still < self.ids.len() ==> devices[still].pending is None,
        ensures
            self.well_led(
                (Model { staged: self.staged.remove(k), devices, ..self }).nothing(),
                still,
                quiet,
            ),
    {
        let next = Model { staged: self.staged.remove(k), devices, ..self };
        assert forall|l: int| 0 <= l < next.staged.len() implies (#[trigger] next.staged[l])
            == self.staged[if l < k { l } else { l + 1 }] by {}
        assert forall|l: int| 0 <= l < next.staged.len() implies self.holds(
            (#[trigger] next.staged[l]).token,
        ) by {
            assert(self.staged[if l < k { l } else { l + 1 }].token == next.staged[l].token);
        }
        if 0 <= still < self.ids.len() {
            assert forall|l: int| 0 <= l < next.staged.len() implies (
            #[trigger] next.staged[l]).affected[still] is None by {
                assert(self.staged[if l < k { l } else { l + 1 }].affected[still] is None);
            }
            assert(next.at_rest(still));
        }
    }

    proof fn lemma_led_token(self, operation: Operation, still: int, quiet: int)
        requires
            self.wf(),
            self.spared(still, quiet),
            operation is Register || operation is Accept || operation is Fail
                || operation is Abandon || operation is Cancel,
        ensures
            self.well_led(self.step(operation), still, quiet),
    {
        self.lemma_led_nothing(self, still, quiet);
        match operation {
            Operation::Register { token, epoch, operation_count, max_offset_ms } => {
                Model::token_is_placed(self.staged, token);
                let k = crate::dispatch::token_place(self.staged, token);
                let step = self.registered(token, epoch, operation_count, max_offset_ms);
                if self.has_token(token) {
                    if let Ok((next, _)) = step {
                        if next.staged != self.staged {
                            self.lemma_led_plan(k, next.staged[k], still, quiet);
                            assert(next == self.with_staged(k, next.staged[k]));
                        } else {
                            assert(next == self);
                        }
                    }
                    self.lemma_transacted(epoch, silent(step), still, quiet);
                }
            },
            Operation::Accept { token, index, now } => {
                Model::token_is_placed(self.staged, token);
                let k = crate::dispatch::token_place(self.staged, token);
                let step = self.accepted(token, index, now);
                if self.claim_fault(token, index) is None {
                    if let Ok((next, _)) = step {
                        if next.staged.len() == self.staged.len() {
                            self.lemma_led_plan(k, next.staged[k], still, quiet);
                            assert(next == self.with_staged(k, next.staged[k]));
                        } else {
                            let entry = self.staged[k];
                            if 0 <= still < self.ids.len() {
                                assert(entry.affected[still] is None);
                            }
                            self.lemma_led_removed(
                                k,
                                self.sent(entry.affected, now),
                                still,
                                quiet,
                            );
                        }
                    }
                }
                self.lemma_transacted(now, silent(step), still, quiet);
            },
            Operation::Fail { token, index, now } => {
                Model::token_is_placed(self.staged, token);
                let k = crate::dispatch::token_place(self.staged, token);
                let step = self.failed(token, index, now);
                if self.claim_fault(token, index) is None {
                    let entry = self.staged[k];
                    assert(self.staged_entry_wf(entry));
                    self.lemma_led_removed(k, self.devices, still, quiet);
                    let removed = Model { staged: self.staged.remove(k), ..self };
                    if let Ok((next, _)) = step {
                        next.lemma_same_follows(removed);
                        next.lemma_follows(removed, self);
                        if 0 <= still < self.ids.len() {
                            assert(entry.affected[still] is None);
                            assert forall|l: int| 0 <= l < next.deferred.len() implies (
                            #[trigger] next.deferred[l]).attempts[still] is None by {
                                if l < self.deferred.len() {
                                    assert(self.deferred[l].attempts[still] is None);
                                }
                            }
                            assert(removed.at_rest(still));
                            assert(next.at_rest(still));
                        }
                    }
                }
                self.lemma_transacted(now, silent(step), still, quiet);
            },
            Operation::Abandon { token, index, now } => {
                Model::token_is_placed(self.staged, token);
                let k = crate::dispatch::token_place(self.staged, token);
                if self.claim_fault(token, index) is None {
                    self.lemma_led_removed(
                        k,
                        self.unawaited(self.staged[k].affected),
                        still,
                        quiet,
                    );
                }
                self.lemma_transacted(now, silent(self.abandoned(token, index)), still, quiet);
            },
            Operation::Cancel { token, now } => {
                Model::token_is_placed(self.staged, token);
                let k = crate::dispatch::token_place(self.staged, token);
                if self.has_token(token) {
                    self.lemma_led_removed(
                        k,
                        self.unawaited(self.staged[k].affected),
                        still,
                        quiet,
                    );
                }
                let step: Result<
                    (Model, crate::reconcile::DispatchCancellation),
                    ReconcileError,
                > = Ok(self.dropped(token));
                self.lemma_transacted(now, silent(step), still, quiet);
            },
            _ => {},
        }
    }

    proof fn lemma_led(self, operation: Operation, still: int, quiet: int)
        requires
            self.wf(),
            self.allows(operation),
            self.spared(still, quiet),
            still == -1 || (0 <= still < self.ids.len() && self.concerns_others(
                operation,
                still,
            )),
            !Model::sets_group(operation, quiet),
        ensures
            self.well_led(self.step(operation), still, quiet),
    {
        match operation {
            Operation::Connect { now } => {
                self.lemma_led_connected(now, quiet);
                self.lemma_transacted(now, self.connected(now), still, quiet);
            },
            Operation::Disconnect { now } => {
                let next = self.disconnected();
                assert(next.follows(self));
                self.lemma_transacted(now, next.nothing(), still, quiet);
            },
            Operation::Bridge { availability, now } => {
                self.lemma_led_bridged(availability, now, quiet);
                self.lemma_transacted(now, self.bridged(availability, now), still, quiet);
            },
            Operation::Report { device, availability, now } => {
                self.lemma_led_reported(device, availability, now, still, quiet);
                self.lemma_transacted(
                    now,
                    self.made_available(device, availability, now),
                    still,
                    quiet,
                );
            },
            Operation::Desire { device, target, now } => {
                self.lemma_led_desired(device, target, now, still, quiet);
                self.lemma_transacted(now, self.desired(device, target, now), still, quiet);
            },
            Operation::DesireGroup { group, target, now } => {
                self.lemma_led_group_desired(group, target, now, still, quiet);
                self.lemma_transacted(now, self.group_desired(group, target, now), still, quiet);
            },
            Operation::ClearGroup { group, now } => {
                self.lemma_led_group_cleared(group, now, still, quiet);
                self.lemma_transacted(now, self.group_cleared(group, now), still, quiet);
            },
            Operation::Observe { device, update, now } => {
                self.lemma_led_observed(device, update, now, still, quiet);
                self.lemma_transacted(now, self.observed(device, update, now), still, quiet);
            },
            Operation::Restart { device, now } => {
                self.lemma_led_restarted(device, now, still, quiet);
                self.lemma_transacted(now, self.restarted(device, now), still, quiet);
            },
            Operation::Refresh { chosen, now } => {
                let n = chosen.len() as int;
                self.lemma_same_follows(self);
                self.lemma_tidy_nothing(still, quiet);
                self.lemma_led_on(self, self.nothing(), still, quiet);
                self.lemma_tidy_chosen_commanded(chosen, n, now, quiet);
                self.lemma_led_on(self, self.chosen_commanded(chosen, n, now), -1, quiet);
                self.lemma_transacted(now, self.refreshed(chosen, now), still, quiet);
            },
            Operation::RetryDue { now } => {
                self.lemma_same_follows(self);
                self.lemma_tidy_due(now, still, quiet);
                self.lemma_led_on(self, self.due(now), still, quiet);
                self.lemma_transacted(now, self.due(now), still, quiet);
            },
            _ => {
                self.lemma_led_token(operation, still, quiet);
            },
        }
    }

    proof fn lemma_noted_keeps(self, now: MonotonicTime, step: Step)
        requires
            step matches Ok((next, _)) ==> next.wf(),
        ensures
            self.transacted(now, step) matches Ok((next, _)) ==> next.wf(),
    {
        if let Ok((next, _)) = step {
            next.time_keeps(Some(now));
        }
    }

    proof fn lemma_told_keeps<T>(self, now: MonotonicTime, step: Result<(Model, T), ReconcileError>)
        requires
            step matches Ok((next, _)) ==> next.wf(),
        ensures
            silent(self.completed(now, step)) matches Ok((next, _)) ==> next.wf(),
    {
        if let Ok((next, _)) = step {
            next.time_keeps(Some(now));
        }
    }

    proof fn lemma_token_keeps(self, operation: Operation)
        requires
            self.wf(),
            operation is Register || operation is Accept || operation is Fail
                || operation is Abandon || operation is Cancel,
        ensures
            self.step(operation) matches Ok((next, _)) ==> next.wf(),
    {
        match operation {
            Operation::Register { token, epoch, operation_count, max_offset_ms } => {
                if self.has_token(token) {
                    self.registered_keeps(token, epoch, operation_count, max_offset_ms);
                    self.lemma_told_keeps(
                        epoch,
                        self.registered(token, epoch, operation_count, max_offset_ms),
                    );
                }
            },
            Operation::Accept { token, index, now } => {
                self.accepted_keeps(token, index, now);
                self.lemma_told_keeps(now, self.accepted(token, index, now));
            },
            Operation::Fail { token, index, now } => {
                self.failed_keeps(token, index, now);
                self.lemma_told_keeps(now, self.failed(token, index, now));
            },
            Operation::Abandon { token, index, now } => {
                self.dropped_keeps(token);
                self.lemma_told_keeps(now, self.abandoned(token, index));
            },
            Operation::Cancel { token, now } => {
                self.dropped_keeps(token);
                self.lemma_told_keeps::<crate::reconcile::DispatchCancellation>(
                    now,
                    Ok(self.dropped(token)),
                );
            },
            _ => {},
        }
    }

    /// Every operation keeps the invariant.
    pub proof fn operations_keep(self, operation: Operation)
        requires
            self.wf(),
            self.allows(operation),
        ensures
            self.step(operation) matches Ok((next, _)) ==> next.wf(),
    {
        match operation {
            Operation::Connect { now } => {
                self.connected_keeps(now);
                self.lemma_noted_keeps(now, self.connected(now));
            },
            Operation::Disconnect { now } => {
                self.disconnected_keeps();
                self.lemma_told_keeps::<()>(now, Ok((self.disconnected(), ())));
            },
            Operation::Bridge { availability, now } => {
                self.bridged_keeps(availability, now);
                self.lemma_noted_keeps(now, self.bridged(availability, now));
            },
            Operation::Report { device, availability, now } => {
                self.made_available_keeps(device, availability, now);
                self.lemma_noted_keeps(now, self.made_available(device, availability, now));
            },
            Operation::Desire { device, target, now } => {
                self.desired_keeps(device, target, now);
                self.lemma_noted_keeps(now, self.desired(device, target, now));
            },
            Operation::DesireGroup { group, target, now } => {
                self.group_desired_keeps(group, target, now);
                self.lemma_noted_keeps(now, self.group_desired(group, target, now));
            },
            Operation::ClearGroup { group, now } => {
                self.group_cleared_keeps(group, now);
                self.lemma_noted_keeps(now, self.group_cleared(group, now));
            },
            Operation::Observe { device, update, now } => {
                self.observed_keeps(device, update, now);
                self.lemma_noted_keeps(now, self.observed(device, update, now));
            },
            Operation::Restart { device, now } => {
                self.restarted_keeps(device, now);
                self.lemma_noted_keeps(now, self.restarted(device, now));
            },
            Operation::Refresh { chosen, now } => {
                self.chosen_commanded_keeps(chosen, chosen.len() as int, now);
                self.lemma_noted_keeps(now, self.refreshed(chosen, now));
            },
            Operation::RetryDue { now } => {
                self.due_keeps(now);
                self.lemma_noted_keeps(now, self.due(now));
            },
            _ => {
                self.lemma_token_keeps(operation);
            },
        }
    }
}

// The laws.

impl Model {
    /// A run keeps the invariant and the names.
    pub proof fn runs_keep(self, run: Seq<Operation>)
        requires
            self.wf(),
            self.allows_run(run),
        ensures
            self.after(run).wf(),
            self.after(run).same_names(self),
        decreases run.len(),
    {
        if run.len() > 0 {
            let shorter = run.drop_last();
            let last = run.last();
            assert forall|k: int| 0 <= k < shorter.len() implies self.allows(
                #[trigger] shorter[k],
            ) by {
                assert(shorter[k] == run[k]);
            }
            self.runs_keep(shorter);
            let before = self.after(shorter);
            assert(self.allows(run[run.len() - 1]));
            assert(before.allows(last));
            before.lemma_named_apart();
            before.lemma_led(last, -1, -1);
            before.operations_keep(last);
        }
    }

    /// A new batch has a token larger than every one before.
    pub proof fn new_tokens_are_larger(self, operation: Operation)
        requires
            self.wf(),
            self.allows(operation),
        ensures
            self.step(operation) matches Ok((next, actions)) ==> {
                &&& self.next_token <= next.next_token
                &&& fresh(actions, self.next_token)
                &&& forall|token: DispatchToken|
                    next.has_token(token) ==> #[trigger] self.has_token(token) || self.next_token
                        <= token.value
            },
            forall|token: DispatchToken|
                #[trigger] self.has_token(token) ==> token.value < self.next_token,
    {
        self.lemma_named_apart();
        self.lemma_led(operation, -1, -1);
        assert forall|token: DispatchToken| #[trigger] self.has_token(token) implies token.value
            < self.next_token by {
            Model::token_is_placed(self.staged, token);
            let k = crate::dispatch::token_place(self.staged, token);
            assert(self.staged_entry_wf(self.staged[k]));
        }
        if let Ok((next, actions)) = self.step(operation) {
            assert forall|token: DispatchToken| next.has_token(token) implies #[trigger] self.has_token(
                token,
            ) || self.next_token <= token.value by {
                Model::token_is_placed(next.staged, token);
                Model::token_is_placed(self.staged, token);
                let k = crate::dispatch::token_place(next.staged, token);
                if self.holds(next.staged[k].token) {
                    let j = choose|j: int|
                        0 <= j < self.staged.len() && (#[trigger] self.staged[j]).token
                            == next.staged[k].token;
                    assert(self.staged[j].token == token.value);
                }
            }
        }
    }

    /// A token that was given out and is no longer valid never becomes valid again.
    pub proof fn tokens_never_return(self, token: DispatchToken, run: Seq<Operation>)
        requires
            self.wf(),
            self.allows_run(run),
            token.value < self.next_token,
            !self.has_token(token),
        ensures
            !self.after(run).has_token(token),
            token.value < self.after(run).next_token,
        decreases run.len(),
    {
        if run.len() > 0 {
            let shorter = run.drop_last();
            let last = run.last();
            assert forall|k: int| 0 <= k < shorter.len() implies self.allows(
                #[trigger] shorter[k],
            ) by {
                assert(shorter[k] == run[k]);
            }
            self.tokens_never_return(token, shorter);
            self.runs_keep(shorter);
            let before = self.after(shorter);
            assert(self.allows(run[run.len() - 1]));
            assert(before.allows(last));
            before.new_tokens_are_larger(last);
        }
    }

    /// Losing the broker makes every token invalid.
    pub proof fn disconnection_ends_all_tokens(self, token: DispatchToken)
        ensures
            !self.disconnected().has_token(token),
    {
        Model::token_is_placed(self.disconnected().staged, token);
    }

    /// A group whose target is cleared has none, is sent nothing, and has nothing left
    /// to clear.
    pub proof fn clearing_ends_the_group(self, g: int, now: MonotonicTime, later: MonotonicTime)
        requires
            self.wf(),
            0 <= g < self.group_ids.len(),
        ensures
            self.group_cleared(g, now) matches Ok((next, actions)) ==> {
                &&& next.groups[g].command_target is None
                &&& next.groups[g].logical_desired is None
                &&& Model::avoids(actions, CommandEntity::Group(self.group_ids[g]))
                &&& next.group_cleared(g, later) == next.nothing()
            },
    {
        self.lemma_named_apart();
        let group = self.groups[g];
        let next = Model {
            groups: self.groups.update(
                g,
                GroupState { logical_desired: None, command_target: None, ..group },
            ),
            ..self
        };
        let members = self.members(g);
        let attempts = crate::dispatch::first_attempts(
            crate::dispatch::either(next.canceled(members), members),
        );
        next.lemma_without_work(members, -1, g);
        next.without_work(members).lemma_tidy_restaged(attempts, now, -1, g);
    }

    /// A group without a target is not commanded, whatever happens, until it is set
    /// again.
    pub proof fn cleared_groups_stay_unnamed(
        self,
        g: int,
        run: Seq<Operation>,
        last: Operation,
    )
        requires
            self.wf(),
            0 <= g < self.group_ids.len(),
            self.groups[g].command_target is None,
            self.allows_run(run),
            self.allows(last),
            forall|k: int| 0 <= k < run.len() ==> !Model::sets_group(#[trigger] run[k], g),
            !Model::sets_group(last, g),
        ensures
            self.after(run).groups[g].command_target is None,
            self.after(run).step(last) matches Ok((_, actions)) ==> Model::avoids(
                actions,
                CommandEntity::Group(self.group_ids[g]),
            ),
        decreases run.len(),
    {
        self.runs_keep(run);
        let before = self.after(run);
        if run.len() > 0 {
            let shorter = run.drop_last();
            let end = run.last();
            assert(self.allows(run[run.len() - 1]));
            assert(!Model::sets_group(run[run.len() - 1], g));
            assert forall|k: int| 0 <= k < shorter.len() implies self.allows(
                #[trigger] shorter[k],
            ) && !Model::sets_group(shorter[k], g) by {
                assert(shorter[k] == run[k]);
            }
            self.cleared_groups_stay_unnamed(g, shorter, end);
            self.runs_keep(shorter);
            let earlier = self.after(shorter);
            earlier.lemma_named_apart();
            earlier.lemma_led(end, -1, g);
        }
        before.lemma_named_apart();
        before.lemma_led(last, -1, g);
    }

    /// A device at rest is sent nothing and stays at rest, whatever happens elsewhere.
    pub proof fn rest_is_kept(self, i: int, run: Seq<Operation>, last: Operation)
        requires
            self.wf(),
            0 <= i < self.ids.len(),
            self.at_rest(i),
            self.allows_run(run),
            self.allows(last),
            forall|k: int| 0 <= k < run.len() ==> self.concerns_others(#[trigger] run[k], i),
            self.concerns_others(last, i),
        ensures
            self.after(run).at_rest(i),
            self.after(run).step(last) matches Ok((_, actions)) ==> Model::avoids(
                actions,
                CommandEntity::Device(self.ids[i]),
            ),
        decreases run.len(),
    {
        self.runs_keep(run);
        let before = self.after(run);
        if run.len() > 0 {
            let shorter = run.drop_last();
            let end = run.last();
            assert(self.allows(run[run.len() - 1]));
            assert(self.concerns_others(run[run.len() - 1], i));
            assert forall|k: int| 0 <= k < shorter.len() implies self.allows(
                #[trigger] shorter[k],
            ) && self.concerns_others(shorter[k], i) by {
                assert(shorter[k] == run[k]);
            }
            self.rest_is_kept(i, shorter, end);
            self.runs_keep(shorter);
            let earlier = self.after(shorter);
            earlier.lemma_named_apart();
            assert(earlier.concerns_others(end, i)) by {
                earlier.lemma_same_concerns(self, end, i);
            }
            earlier.lemma_led(end, i, -1);
        }
        before.lemma_named_apart();
        before.lemma_same_concerns(self, last, i);
        before.lemma_led(last, i, -1);
    }

    proof fn lemma_same_concerns(self, other: Model, operation: Operation, i: int)
        requires
            self.same_names(other),
            0 <= i < self.ids.len(),
        ensures
            self.concerns_others(operation, i) == other.concerns_others(operation, i),
    {
        match operation {
            Operation::DesireGroup { group, .. } => {
                assert(self.members(group) =~= other.members(group));
            },
            Operation::ClearGroup { group, .. } => {
                assert(self.members(group) =~= other.members(group));
            },
            _ => {},
        }
    }

    /// Device `i` takes part in the batch of `token` and in no other.
    pub open spec fn only_in(self, token: DispatchToken, i: int) -> bool {
        let place = crate::dispatch::token_place(self.staged, token);
        &&& self.has_token(token)
        &&& self.staged[place].affected[i] is Some
        &&& forall|k: int|
            0 <= k < self.staged.len() && k != place ==> (
            #[trigger] self.staged[k]).affected[i] is None
        &&& forall|k: int|
            0 <= k < self.deferred.len() ==> (#[trigger] self.deferred[k]).attempts[i] is None
    }

    /// A batch that is cancelled is over for good: its token is unusable, and none of
    /// its devices is tried again, however often retries fall due, as long as the
    /// device takes part in no other batch and keeps its target and availability.
    pub proof fn cancelled_batches_are_not_retried(
        self,
        token: DispatchToken,
        i: int,
        run: Seq<Operation>,
        now: MonotonicTime,
    )
        requires
            self.wf(),
            0 <= i < self.ids.len(),
            self.only_in(token, i),
            self.allows_run(run),
            forall|k: int| 0 <= k < run.len() ==> self.concerns_others(#[trigger] run[k], i),
        ensures
            self.dropped(token).1 is Cancelled,
            !self.dropped(token).0.has_token(token),
            forall|index: usize| #[trigger]
                self.dropped(token).0.claim(token, index) is Stale,
            self.dropped(token).0.at_rest(i),
            self.dropped(token).0.after(run).step(Operation::RetryDue { now }) matches Ok(
                (_, actions),
            ) ==> Model::avoids(actions, CommandEntity::Device(self.ids[i])),
    {
        let place = crate::dispatch::token_place(self.staged, token);
        let next = self.dropped(token).0;
        Model::token_is_placed(self.staged, token);
        self.dropped_keeps(token);
        assert forall|k: int| 0 <= k < next.staged.len() implies (
        #[trigger] next.staged[k]).affected[i] is None by {
            assert(next.staged[k] == self.staged[if k < place { k } else { k + 1 }]);
        }
        assert(next.at_rest(i));
        assert forall|k: int| 0 <= k < run.len() implies next.allows(#[trigger] run[k])
            && next.concerns_others(run[k], i) by {
            assert(self.allows(run[k]));
            next.lemma_same_concerns(self, run[k], i);
        }
        next.rest_is_kept(i, run, Operation::RetryDue { now });
    }

    /// A permanent failure of one operation cancels the whole batch.
    pub proof fn permanent_failure_cancels(self, token: DispatchToken, index: usize)
        ensures
            self.abandoned(token, index) matches Ok((next, _)) ==> next == self.dropped(token).0
                && self.dropped(token).1 is Cancelled,
    {
    }
}

// Batches that are put off.

impl Model {
    proof fn lemma_swept_puts_off(self, n: int, now: MonotonicTime, i: int)
        requires
            self.wf(),
            0 <= n <= self.staged.len(),
            0 <= i < self.ids.len(),
        ensures
            self.swept(n, now) matches Ok(next) ==> {
                &&& next.same_base(self)
                &&& next.next_token == self.next_token
                &&& self.deferred.len() <= next.deferred.len()
                &&& forall|k: int|
                    0 <= k < self.deferred.len() ==> #[trigger] next.deferred[k]
                        == self.deferred[k]
                &&& (forall|k: int|
                    0 <= k < self.staged.len() ==> (
                    #[trigger] self.staged[k]).affected[i] is None) ==> forall|k: int|
                    self.deferred.len() <= k < next.deferred.len() ==> (
                    #[trigger] next.deferred[k]).attempts[i] is None
            },
        decreases n,
    {
        if n > 0 {
            self.lemma_swept_puts_off(n - 1, now, i);
            assert(self.staged_entry_wf(self.staged[n - 1]));
        }
    }

    proof fn lemma_swept_keeps_deferred(self, n: int, now: MonotonicTime)
        requires
            0 <= n <= self.staged.len(),
        ensures
            self.swept(n, now) matches Ok(next) ==> {
                &&& next.same_base(self)
                &&& self.deferred.len() <= next.deferred.len()
                &&& forall|k: int|
                    0 <= k < self.deferred.len() ==> #[trigger] next.deferred[k]
                        == self.deferred[k]
            },
        decreases n,
    {
        if n > 0 {
            self.lemma_swept_keeps_deferred(n - 1, now);
        }
    }

    /// What is staged stays, and more may come.
    spec fn extends(self, old: Model) -> bool {
        &&& self.same_base(old)
        &&& old.next_token <= self.next_token
        &&& old.staged.len() <= self.staged.len()
        &&& forall|k: int|
            0 <= k < old.staged.len() ==> #[trigger] self.staged[k] == old.staged[k]
    }

    /// The batch at `k` was put off with `attempts` and has come back whole, under one
    /// token of its own.
    pub open spec fn returned_at(
        self,
        k: int,
        base: Model,
        attempts: Seq<Option<u8>>,
        actions: Seq<ReconcileAction>,
    ) -> bool {
        &&& 0 <= k < self.staged.len()
        &&& base.next_token <= self.staged[k].token
        &&& self.staged[k].affected == base.whole(attempts)
        &&& forall|i: int|
            #![trigger base.outstanding(attempts, i)]
            0 <= i < base.ids.len() ==> (base.outstanding(attempts, i) matches Some(attempt)
                ==> actions.contains(
                ReconcileAction::Command {
                    token: DispatchToken { value: self.staged[k].token },
                    entity: CommandEntity::Device(base.ids[i]),
                    target: attempt.target,
                },
            ))
    }

    /// What is outstanding on each listed device.
    pub open spec fn whole(self, attempts: Seq<Option<u8>>) -> Seq<Option<StagedAttempt>> {
        Seq::new(self.ids.len(), |i: int| self.outstanding(attempts, i))
    }

    proof fn lemma_outstanding_sent(self, attempts: Seq<Option<u8>>, n: int, i: int)
        requires
            0 <= i < n <= self.ids.len(),
            self.outstanding(attempts, i) is Some,
        ensures
            self.outstanding_batch(attempts, n).contains(
                (
                    CommandEntity::Device(self.ids[i]),
                    self.outstanding(attempts, i)->0.target,
                ),
            ),
        decreases n,
    {
        let all = self.outstanding_batch(attempts, n);
        let rest = self.outstanding_batch(attempts, n - 1);
        let entry = (
            CommandEntity::Device(self.ids[i]),
            self.outstanding(attempts, i)->0.target,
        );
        if i == n - 1 {
            assert(all[all.len() - 1] == entry);
        } else {
            self.lemma_outstanding_sent(attempts, n - 1, i);
            let k = rest.index_of(entry);
            assert(all[k] == entry);
        }
    }

    proof fn lemma_dispatched_extends(
        self,
        batch: Seq<(CommandEntity, DeviceTarget)>,
        affected: Seq<Option<StagedAttempt>>,
        now: MonotonicTime,
    )
        ensures
            self.dispatched(batch, affected, now) matches Ok((next, _)) ==> next.extends(self),
    {
    }

    proof fn lemma_restaged_whole(self, attempts: Seq<Option<u8>>, now: MonotonicTime)
        ensures
            self.restaged(attempts, now) matches Ok((next, actions)) ==> {
                &&& next.extends(self)
                &&& self.can_publish() && !crate::dispatch::unset(self.whole(attempts)) ==> {
                    &&& next.staged.len() == self.staged.len() + 1
                    &&& next.returned_at(self.staged.len() as int, self, attempts, actions)
                }
            },
    {
        let n = self.ids.len() as int;
        let batch = self.outstanding_batch(attempts, n);
        let affected = self.whole(attempts);
        if self.can_publish() {
            self.lemma_dispatched_extends(batch, affected, now);
            if let Ok((next, actions)) = self.restaged(attempts, now) {
                if !crate::dispatch::unset(affected) {
                    let some = choose|i: int| 0 <= i < affected.len() && affected[i] is Some;
                    self.lemma_outstanding_sent(attempts, n, some);
                    assert(batch.len() > 0);
                    assert forall|i: int|
                        #![trigger self.outstanding(attempts, i)]
                        0 <= i < n && self.outstanding(attempts, i) is Some implies actions.contains(
                        ReconcileAction::Command {
                            token: DispatchToken { value: self.next_token },
                            entity: CommandEntity::Device(self.ids[i]),
                            target: self.outstanding(attempts, i)->0.target,
                        },
                    ) by {
                        self.lemma_outstanding_sent(attempts, n, i);
                        let entry = (
                            CommandEntity::Device(self.ids[i]),
                            self.outstanding(attempts, i)->0.target,
                        );
                        let k = batch.index_of(entry);
                        assert(batch[k] == entry);
                        assert(actions[k] == (ReconcileAction::Command {
                            token: DispatchToken { value: self.next_token },
                            entity: entry.0,
                            target: entry.1,
                        }));
                    }
                }
            }
        }
    }

    proof fn lemma_still_returned(
        self,
        k: int,
        base: Model,
        attempts: Seq<Option<u8>>,
        actions: Seq<ReconcileAction>,
        last: Model,
        more: Seq<ReconcileAction>,
    )
        requires
            self.returned_at(k, base, attempts, actions),
            last.extends(self),
        ensures
            last.returned_at(k, base, attempts, actions + more),
    {
        assert forall|i: int|
            #![trigger base.outstanding(attempts, i)]
            0 <= i < base.ids.len() && base.outstanding(attempts, i) is Some implies (actions
            + more).contains(
            ReconcileAction::Command {
                token: DispatchToken { value: last.staged[k].token },
                entity: CommandEntity::Device(base.ids[i]),
                target: base.outstanding(attempts, i)->0.target,
            },
        ) by {
            let command = ReconcileAction::Command {
                token: DispatchToken { value: self.staged[k].token },
                entity: CommandEntity::Device(base.ids[i]),
                target: base.outstanding(attempts, i)->0.target,
            };
            let a = actions.index_of(command);
            assert((actions + more)[a] == command);
        }
    }

    proof fn lemma_released_returns(self, n: int, now: MonotonicTime, d: int)
        requires
            0 <= d < n <= self.deferred.len(),
            self.can_publish(),
            self.deferred[d].retry_deadline.value.at_most(now.value),
            !crate::dispatch::unset(self.whole(self.deferred[d].attempts)),
        ensures
            self.released(n, now) matches Ok((next, actions)) ==> exists|k: int|
                #[trigger] next.returned_at(k, self, self.deferred[d].attempts, actions),
            self.released(n, now) matches Ok((next, _)) ==> next.same_base(self)
                && self.next_token <= next.next_token,
        decreases n,
    {
        let attempts = self.deferred[d].attempts;
        self.lemma_released_base(n - 1, now);
        self.lemma_released_base(n, now);
        if let Ok((before, actions)) = self.released(n - 1, now) {
            let entry = self.deferred[n - 1];
            if let Ok((next, all)) = self.released(n, now) {
                assert(before.whole(attempts) =~= self.whole(attempts)) by {
                    assert forall|i: int| 0 <= i < self.ids.len() implies before.outstanding(
                        attempts,
                        i,
                    ) == self.outstanding(attempts, i) by {}
                }
                if d == n - 1 {
                    before.lemma_restaged_whole(attempts, now);
                    let k = before.staged.len() as int;
                    let more = before.restaged(attempts, now)->Ok_0.1;
                    assert(next.returned_at(k, before, attempts, more));
                    assert forall|i: int|
                        #![trigger self.outstanding(attempts, i)]
                        0 <= i < self.ids.len() && self.outstanding(
                            attempts,
                            i,
                        ) is Some implies all.contains(
                        ReconcileAction::Command {
                            token: DispatchToken { value: next.staged[k].token },
                            entity: CommandEntity::Device(self.ids[i]),
                            target: self.outstanding(attempts, i)->0.target,
                        },
                    ) by {
                        assert(before.outstanding(attempts, i) == self.outstanding(attempts, i));
                        let command = ReconcileAction::Command {
                            token: DispatchToken { value: next.staged[k].token },
                            entity: CommandEntity::Device(self.ids[i]),
                            target: self.outstanding(attempts, i)->0.target,
                        };
                        assert(more.contains(command));
                        let a = more.index_of(command);
                        assert(all[actions.len() + a] == command);
                    }
                    assert(next.returned_at(k, self, attempts, all));
                } else {
                    self.lemma_released_returns(n - 1, now, d);
                    let k = choose|k: int|
                        #[trigger] before.returned_at(k, self, attempts, actions);
                    if entry.retry_deadline.value.at_most(now.value) {
                        before.lemma_restaged_whole(entry.attempts, now);
                        let more = before.restaged(entry.attempts, now)->Ok_0.1;
                        before.lemma_still_returned(k, self, attempts, actions, next, more);
                    } else {
                        let none = Seq::<ReconcileAction>::empty();
                        before.lemma_still_returned(k, self, attempts, actions, next, none);
                        assert(actions + none =~= actions);
                    }
                    assert(next.returned_at(k, self, attempts, all));
                }
            }
        }
    }

    proof fn lemma_released_base(self, n: int, now: MonotonicTime)
        ensures
            self.released(n, now) matches Ok((next, _)) ==> next.same_base(self)
                && self.next_token <= next.next_token,
        decreases n,
    {
        if n > 0 {
            self.lemma_released_base(n - 1, now);
            if let Ok((before, _)) = self.released(n - 1, now) {
                before.lemma_restaged_whole(self.deferred[n - 1].attempts, now);
            }
        }
    }

    proof fn lemma_retried_extends(self, n: int, now: MonotonicTime)
        ensures
            self.retried(n, now) matches Ok((next, _)) ==> next.extends(self) && next.deferred
                == self.deferred,
        decreases n,
    {
        if n > 0 {
            self.lemma_retried_extends(n - 1, now);
            if let Ok((before, _)) = self.retried(n - 1, now) {
                if self.overdue(n - 1, now) {
                    let pending = self.devices[n - 1].pending->0;
                    before.lemma_dispatched_extends(
                        seq![(CommandEntity::Device(self.ids[n - 1]), pending.target)],
                        crate::dispatch::sole(
                            self.ids.len(),
                            n - 1,
                            StagedAttempt {
                                target: pending.target,
                                attempts: (pending.attempts + 1) as u8,
                            },
                        ),
                        now,
                    );
                }
            }
        }
    }

    proof fn lemma_restaged_avoids(self, attempts: Seq<Option<u8>>, now: MonotonicTime, i: int)
        requires
            self.named_apart(),
            0 <= i < self.ids.len(),
            attempts[i] is None,
        ensures
            self.restaged(attempts, now) matches Ok((next, actions)) ==> {
                &&& next.same_base(self)
                &&& next.deferred == self.deferred
                &&& Model::avoids(actions, CommandEntity::Device(self.ids[i]))
            },
    {
        let n = self.ids.len() as int;
        let batch = self.outstanding_batch(attempts, n);
        self.lemma_outstanding_listed(attempts, n);
        assert forall|k: int| 0 <= k < batch.len() implies (#[trigger] batch[k]).0
            != CommandEntity::Device(self.ids[i]) by {
            let j = choose|j: int|
                0 <= j < n && attempts[j] is Some && batch[k].0 == CommandEntity::Device(
                    #[trigger] self.ids[j],
                );
            assert(j != i);
        }
    }

    /// The deferred batch at `d` is the only one of device `i`.
    spec fn only_deferred(self, d: int, i: int) -> bool {
        forall|k: int|
            0 <= k < self.deferred.len() && k != d ==> (
            #[trigger] self.deferred[k]).attempts[i] is None
    }

    proof fn lemma_released_waits(self, n: int, now: MonotonicTime, d: int, i: int)
        requires
            self.named_apart(),
            0 <= i < self.ids.len(),
            0 <= d < self.deferred.len(),
            0 <= n <= self.deferred.len(),
            !self.deferred[d].retry_deadline.value.at_most(now.value),
            self.only_deferred(d, i),
        ensures
            self.released(n, now) matches Ok((next, actions)) ==> {
                &&& next.same_base(self)
                &&& Model::avoids(actions, CommandEntity::Device(self.ids[i]))
                &&& d < n ==> next.deferred.contains(self.deferred[d])
            },
        decreases n,
    {
        if n > 0 {
            self.lemma_released_waits(n - 1, now, d, i);
            if let Ok((before, actions)) = self.released(n - 1, now) {
                let entry = self.deferred[n - 1];
                if entry.retry_deadline.value.at_most(now.value) {
                    before.lemma_restaged_avoids(entry.attempts, now, i);
                    if let Ok((next, more)) = before.restaged(entry.attempts, now) {
                        let all = actions + more;
                        assert forall|k: int| 0 <= k < all.len() implies #[trigger] all[k] == if k
                            < actions.len() {
                            actions[k]
                        } else {
                            more[k - actions.len()]
                        } by {}
                    }
                } else {
                    let deferred = before.deferred.push(entry);
                    if d == n - 1 {
                        assert(deferred[before.deferred.len() as int] == entry);
                    } else if d < n - 1 {
                        let k = before.deferred.index_of(self.deferred[d]);
                        assert(deferred[k] == self.deferred[d]);
                    }
                }
            }
        }
    }

    proof fn lemma_released_keeps(self, n: int, now: MonotonicTime, d: int)
        requires
            0 <= d < self.deferred.len(),
            0 <= n <= self.deferred.len(),
            !self.deferred[d].retry_deadline.value.at_most(now.value),
        ensures
            self.released(n, now) matches Ok((next, _)) ==> {
                &&& next.same_base(self)
                &&& d < n ==> next.deferred.contains(self.deferred[d])
            },
        decreases n,
    {
        if n > 0 {
            self.lemma_released_keeps(n - 1, now, d);
            if let Ok((before, _)) = self.released(n - 1, now) {
                let entry = self.deferred[n - 1];
                if !entry.retry_deadline.value.at_most(now.value) {
                    let deferred = before.deferred.push(entry);
                    if d == n - 1 {
                        assert(deferred[before.deferred.len() as int] == entry);
                    } else if d < n - 1 {
                        let k = before.deferred.index_of(self.deferred[d]);
                        assert(deferred[k] == self.deferred[d]);
                    }
                }
            }
        }
    }

    /// A batch that is put off stays put off, as it is, until its time.
    pub proof fn put_off_batches_stay(self, d: int, now: MonotonicTime)
        requires
            self.wf(),
            0 <= d < self.deferred.len(),
            !self.deferred[d].retry_deadline.value.at_most(now.value),
        ensures
            self.due(now) matches Ok((next, _)) ==> next.deferred.contains(self.deferred[d]),
    {
        let n = self.staged.len() as int;
        self.lemma_swept_keeps_deferred(n, now);
        if let Ok(next) = self.swept(n, now) {
            assert(next.deferred[d] == self.deferred[d]);
            if next.can_publish() {
                let m = next.deferred.len() as int;
                next.lemma_released_keeps(m, now, d);
                if let Ok((later, _)) = next.released(m, now) {
                    later.lemma_retried_extends(later.ids.len() as int, now);
                }
            }
        }
    }

    proof fn lemma_retried_avoids(self, n: int, now: MonotonicTime, i: int)
        requires
            self.named_apart(),
            0 <= n <= self.ids.len(),
            0 <= i < self.ids.len(),
            self.scheduled(i),
        ensures
            self.retried(n, now) matches Ok((next, actions)) ==> {
                &&& next.deferred == self.deferred
                &&& Model::avoids(actions, CommandEntity::Device(self.ids[i]))
            },
        decreases n,
    {
        if n > 0 {
            self.lemma_retried_avoids(n - 1, now, i);
            if let Ok((before, actions)) = self.retried(n - 1, now) {
                if let Ok((next, all)) = self.retried(n, now) {
                    if self.overdue(n - 1, now) {
                        assert(self.ids[n - 1] != self.ids[i]);
                        assert forall|k: int| 0 <= k < all.len() implies !((
                        #[trigger] all[k]) matches ReconcileAction::Command { entity, .. }
                            && entity == CommandEntity::Device(self.ids[i])) by {
                            if k < actions.len() {
                                assert(all[k] == actions[k]);
                            }
                        }
                    }
                }
            }
        }
    }

    /// A batch that is put off is left alone until its time: a device that takes part
    /// in no other batch is sent nothing, and the batch stays put off.
    pub proof fn put_off_batches_wait(self, d: int, i: int, now: MonotonicTime)
        requires
            self.wf(),
            0 <= d < self.deferred.len(),
            0 <= i < self.ids.len(),
            self.deferred[d].attempts[i] is Some,
            !self.deferred[d].retry_deadline.value.at_most(now.value),
            forall|k: int|
                0 <= k < self.deferred.len() && k != d ==> (
                #[trigger] self.deferred[k]).attempts[i] is None,
            forall|k: int|
                0 <= k < self.staged.len() ==> (#[trigger] self.staged[k]).affected[i] is None,
        ensures
            self.due(now) matches Ok((next, actions)) ==> {
                &&& Model::avoids(actions, CommandEntity::Device(self.ids[i]))
                &&& next.deferred.contains(self.deferred[d])
            },
    {
        self.lemma_named_apart();
        let n = self.staged.len() as int;
        self.lemma_swept_puts_off(n, now, i);
        if let Ok(next) = self.swept(n, now) {
            assert(next.deferred[d] == self.deferred[d]);
            if next.can_publish() {
                assert(next.only_deferred(d, i)) by {
                    assert forall|k: int| 0 <= k < next.deferred.len() && k != d implies (
                    #[trigger] next.deferred[k]).attempts[i] is None by {
                        if k < self.deferred.len() {
                            assert(next.deferred[k] == self.deferred[k]);
                        }
                    }
                }
                let m = next.deferred.len() as int;
                next.lemma_released_waits(m, now, d, i);
                if let Ok((later, actions)) = next.released(m, now) {
                    let k = later.deferred.index_of(self.deferred[d]);
                    assert(later.deferred[k].attempts[i] is Some);
                    assert(later.scheduled(i));
                    let l = later.ids.len() as int;
                    later.lemma_retried_avoids(l, now, i);
                    if let Ok((last, more)) = later.retried(l, now) {
                        let all = actions + more;
                        assert forall|j: int| 0 <= j < all.len() implies #[trigger] all[j] == if j
                            < actions.len() {
                            actions[j]
                        } else {
                            more[j - actions.len()]
                        } by {}
                    }
                }
            }
        }
    }

    /// A batch whose time has come is staged whole, under one new token and with the
    /// attempts it had: every device of it that is online and out of sync is
    /// commanded.
    pub proof fn put_off_batches_return(self, d: int, now: MonotonicTime)
        requires
            self.wf(),
            self.can_publish(),
            0 <= d < self.deferred.len(),
            self.deferred[d].retry_deadline.value.at_most(now.value),
            !crate::dispatch::unset(self.whole(self.deferred[d].attempts)),
        ensures
            self.due(now) matches Ok((next, actions)) ==> exists|k: int|
                #[trigger] next.returned_at(k, self, self.deferred[d].attempts, actions),
    {
        let attempts = self.deferred[d].attempts;
        let some = choose|i: int|
            0 <= i < self.whole(attempts).len() && self.whole(attempts)[i] is Some;
        let n = self.staged.len() as int;
        self.lemma_swept_puts_off(n, now, some);
        if let Ok(next) = self.swept(n, now) {
            assert(next.deferred[d] == self.deferred[d]);
            assert(next.whole(attempts) =~= self.whole(attempts)) by {
                assert forall|i: int| 0 <= i < self.ids.len() implies next.outstanding(attempts, i)
                    == self.outstanding(attempts, i) by {}
            }
            let m = next.deferred.len() as int;
            next.lemma_released_returns(m, now, d);
            if let Ok((later, actions)) = next.released(m, now) {
                let k = choose|k: int| #[trigger] later.returned_at(k, next, attempts, actions);
                let l = later.ids.len() as int;
                later.lemma_retried_extends(l, now);
                if let Ok((last, more)) = later.retried(l, now) {
                    later.lemma_still_returned(k, next, attempts, actions, last, more);
                    assert forall|i: int|
                        #![trigger self.outstanding(attempts, i)]
                        0 <= i < self.ids.len() && self.outstanding(
                            attempts,
                            i,
                        ) is Some implies (actions + more).contains(
                        ReconcileAction::Command {
                            token: DispatchToken { value: last.staged[k].token },
                            entity: CommandEntity::Device(self.ids[i]),
                            target: self.outstanding(attempts, i)->0.target,
                        },
                    ) by {
                        assert(next.outstanding(attempts, i) == self.outstanding(attempts, i));
                    }
                    assert(last.returned_at(k, self, attempts, actions + more));
                    assert(self.due(now)->Ok_0 == (last, actions + more));
                    assert(self.due(now)->Ok_0.0.returned_at(
                        k,
                        self,
                        self.deferred[d].attempts,
                        self.due(now)->Ok_0.1,
                    ));
                }
            }
        }
    }

    /// A batch that fails for now is withdrawn and put off whole, with the attempts it
    /// had: until the backoff is over it stays put off, and the first retry from then
    /// on, with broker and bridge there, stages it whole under one new token.
    pub proof fn failed_batches_return(
        self,
        token: DispatchToken,
        index: usize,
        now: MonotonicTime,
        later: MonotonicTime,
    )
        requires
            self.wf(),
            self.failed(token, index, now) is Ok,
            !crate::dispatch::unset(
                crate::dispatch::attempts_of(
                    self.staged[crate::dispatch::token_place(self.staged, token)].affected,
                ),
            ),
        ensures
            ({
                let next = self.failed(token, index, now)->Ok_0.0;
                let attempts = crate::dispatch::attempts_of(
                    self.staged[crate::dispatch::token_place(self.staged, token)].affected,
                );
                let entry = next.deferred.last();
                &&& !next.has_token(token)
                &&& next.devices == self.devices
                &&& next.deferred.len() == self.deferred.len() + 1
                &&& entry.attempts == attempts
                &&& self.policy.failure_time(now) == Ok::<MonotonicTime, ReconcileError>(
                    entry.retry_deadline,
                )
                &&& if entry.retry_deadline.value.at_most(later.value) {
                    next.can_publish() && !crate::dispatch::unset(next.whole(attempts)) ==> (
                    next.due(later) matches Ok((last, actions)) ==> exists|k: int|
                        #[trigger] last.returned_at(k, next, attempts, actions))
                } else {
                    next.due(later) matches Ok((last, _)) ==> last.deferred.contains(entry)
                }
            }),
    {
        self.failure_spends_no_attempt(token, index, now);
        self.failed_keeps(token, index, now);
        let next = self.failed(token, index, now)->Ok_0.0;
        let attempts = crate::dispatch::attempts_of(
            self.staged[crate::dispatch::token_place(self.staged, token)].affected,
        );
        let d = next.deferred.len() - 1;
        if next.deferred[d].retry_deadline.value.at_most(later.value) {
            if next.can_publish() && !crate::dispatch::unset(next.whole(attempts)) {
                next.put_off_batches_return(d, later);
            }
        } else {
            next.put_off_batches_stay(d, later);
        }
    }

    /// A batch that fails for now is withdrawn and put off: nothing of it is sent to a
    /// device of no other batch before the backoff is over, and the first retry from
    /// then on, with broker and bridge there, stages it whole under one new token and
    /// with the attempts it had.
    pub proof fn failed_batches_wait_and_return(
        self,
        token: DispatchToken,
        index: usize,
        now: MonotonicTime,
        i: int,
        later: MonotonicTime,
    )
        requires
            self.wf(),
            self.failed(token, index, now) is Ok,
            0 <= i < self.ids.len(),
            self.only_in(token, i),
        ensures
            ({
                let next = self.failed(token, index, now)->Ok_0.0;
                let attempts = crate::dispatch::attempts_of(
                    self.staged[crate::dispatch::token_place(self.staged, token)].affected,
                );
                &&& !next.has_token(token)
                &&& next.devices == self.devices
                &&& self.policy.failure_time(now) matches Ok(deadline) && if deadline.value.at_most(
                    later.value,
                ) {
                    next.can_publish() && !crate::dispatch::unset(next.whole(attempts)) ==> (
                    next.due(later) matches Ok((last, actions)) ==> exists|k: int|
                        #[trigger] last.returned_at(k, next, attempts, actions))
                } else {
                    next.due(later) matches Ok((_, actions)) ==> Model::avoids(
                        actions,
                        CommandEntity::Device(self.ids[i]),
                    )
                }
            }),
    {
        let place = crate::dispatch::token_place(self.staged, token);
        Model::token_is_placed(self.staged, token);
        self.failure_spends_no_attempt(token, index, now);
        self.failed_keeps(token, index, now);
        let entry = self.staged[place];
        assert(self.staged_entry_wf(entry));
        let attempts = crate::dispatch::attempts_of(entry.affected);
        assert(attempts[i] is Some);
        assert(!crate::dispatch::unset(attempts));
        let next = self.failed(token, index, now)->Ok_0.0;
        let deadline = self.policy.failure_time(now)->Ok_0;
        let d = next.deferred.len() - 1;
        assert(next.deferred[d].retry_deadline == deadline);
        if deadline.value.at_most(later.value) {
            if next.can_publish() && !crate::dispatch::unset(next.whole(attempts)) {
                next.put_off_batches_return(d, later);
            }
        } else {
            assert forall|k: int| 0 <= k < next.staged.len() implies (
            #[trigger] next.staged[k]).affected[i] is None by {
                assert(next.staged[k] == self.staged[if k < place { k } else { k + 1 }]);
            }
            assert forall|k: int| 0 <= k < next.deferred.len() && k != d implies (
            #[trigger] next.deferred[k]).attempts[i] is None by {
                assert(next.deferred[k] == self.deferred[k]);
            }
            next.put_off_batches_wait(d, i, later);
        }
    }
}

} // verus!
