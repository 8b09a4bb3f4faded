//! The reconciler: what each device should do, what it does, and the commands
//! that bring the two together.
use crate::dispatch::{Claim, DeferredView, Model, StagedView};
use crate::ordered::{OrderedKey, SortedMap};
use crate::reconcile::{
    merge_observation, target_difference, target_is_empty, targets_in_sync, Availability,
    CommandEntity, DeviceDefinition, DeviceId, DeviceState, DispatchAcceptance,
    DispatchCancellation, DispatchRegistrationOutcome, DispatchToken, EntityId, GroupDefinition,
    GroupState, PendingCommand, ReconcileAction, ReconcileError, RegisteredDispatchPlan,
    RetryPolicy, StagedAttempt, TransportStatus,
};
use crate::state::MonotonicTime;
use crate::text;
use crate::value::{DeviceTarget, LightTarget};
use vstd::prelude::*;

verus! {

/// A batch that waits to be accepted. What it sends is listed by device.
#[derive(Debug, PartialEq)]
pub struct StagedDispatch {
    pub token: u64,
    pub affected: Vec<Option<StagedAttempt>>,
    pub plan: Option<RegisteredDispatchPlan>,
    pub acceptance_deadline: MonotonicTime,
}

impl StagedDispatch {
    pub open spec fn view(&self) -> StagedView {
        StagedView {
            token: self.token,
            affected: self.affected@,
            plan: self.plan,
            acceptance_deadline: self.acceptance_deadline,
        }
    }
}

/// A batch that waits to be tried again. The attempts are listed by device.
#[derive(Debug, PartialEq)]
pub struct DeferredDispatch {
    pub sequence: u64,
    pub attempts: Vec<Option<u8>>,
    pub retry_deadline: MonotonicTime,
}

impl DeferredDispatch {
    pub open spec fn view(&self) -> DeferredView {
        DeferredView {
            sequence: self.sequence,
            attempts: self.attempts@,
            retry_deadline: self.retry_deadline,
        }
    }
}

pub open spec fn staged_views(staged: Seq<StagedDispatch>) -> Seq<StagedView> {
    Seq::new(staged.len(), |k: int| staged[k]@)
}

pub open spec fn deferred_views(deferred: Seq<DeferredDispatch>) -> Seq<DeferredView> {
    Seq::new(deferred.len(), |k: int| deferred[k]@)
}

/// Brings devices to their desired state. Devices and groups are kept in the
/// order of their names.
#[derive(Debug, PartialEq)]
pub struct Reconciler {
    pub ids: Vec<DeviceId>,
    pub devices: Vec<DeviceState>,
    pub group_of: Vec<Option<usize>>,
    pub group_ids: Vec<EntityId>,
    pub groups: Vec<GroupState>,
    pub transport: TransportStatus,
    pub bridge: Availability,
    pub retry_policy: RetryPolicy,
    pub next_dispatch_token: u64,
    pub staged_dispatches: Vec<StagedDispatch>,
    pub next_deferred_sequence: u64,
    pub deferred_dispatches: Vec<DeferredDispatch>,
    pub last_time: Option<MonotonicTime>,
}

/// `result` and the state after it are those of `step`.
pub open spec fn took(
    step: crate::dispatch::Step,
    after: Model,
    result: Result<Vec<ReconcileAction>, ReconcileError>,
) -> bool {
    match step {
        Ok((next, actions)) => result matches Ok(list) && list@ == actions && after == next,
        Err(error) => result == Err::<Vec<ReconcileAction>, ReconcileError>(error),
    }
}

/// `result` and the state after it are those of `step`; a failure leaves the
/// state as it was.
pub open spec fn performed(
    step: crate::dispatch::Step,
    before: Model,
    after: Model,
    result: Result<Vec<ReconcileAction>, ReconcileError>,
) -> bool {
    took(step, after, result) && (step is Err ==> after == before)
}

/// As `performed`, for a step with another result.
pub open spec fn returned<T>(
    step: Result<(Model, T), ReconcileError>,
    before: Model,
    after: Model,
    result: Result<T, ReconcileError>,
) -> bool {
    match step {
        Ok((next, value)) => result == Ok::<T, ReconcileError>(value) && after == next,
        Err(error) => result == Err::<T, ReconcileError>(error) && after == before,
    }
}

fn all_clear(n: usize) -> (mask: Vec<bool>)
    ensures
        mask@.len() == n,
        forall|i: int| 0 <= i < n ==> !#[trigger] mask@[i],
{
    let mut mask: Vec<bool> = Vec::new();
    while mask.len() < n
        invariant
            mask@.len() <= n,
            forall|i: int| 0 <= i < mask@.len() ==> !#[trigger] mask@[i],
        decreases n - mask@.len(),
    {
        mask.push(false);
    }
    mask
}

fn single(n: usize, i: usize) -> (mask: Vec<bool>)
    requires
        i < n,
    ensures
        mask@ == crate::dispatch::only(n as nat, i as int),
{
    let mut mask = all_clear(n);
    mask.set(i, true);
    assert(mask@ =~= crate::dispatch::only(n as nat, i as int));
    mask
}

fn first_attempts(mask: &Vec<bool>) -> (attempts: Vec<Option<u8>>)
    ensures
        attempts@ == crate::dispatch::first_attempts(mask@),
{
    let mut attempts: Vec<Option<u8>> = Vec::new();
    let mut i: usize = 0;
    while i < mask.len()
        invariant
            i <= mask@.len(),
            attempts@ == crate::dispatch::first_attempts(mask@).take(i as int),
        decreases mask@.len() - i,
    {
        attempts.push(
            if mask[i] {
                Some(1u8)
            } else {
                None
            },
        );
        assert(attempts@ =~= crate::dispatch::first_attempts(mask@).take(i + 1));
        i = i + 1;
    }
    assert(attempts@ =~= crate::dispatch::first_attempts(mask@));
    attempts
}

fn attempts_of(affected: &Vec<Option<StagedAttempt>>) -> (attempts: Vec<Option<u8>>)
    ensures
        attempts@ == crate::dispatch::attempts_of(affected@),
{
    let mut attempts: Vec<Option<u8>> = Vec::new();
    let mut i: usize = 0;
    while i < affected.len()
        invariant
            i <= affected@.len(),
            attempts@ == crate::dispatch::attempts_of(affected@).take(i as int),
        decreases affected@.len() - i,
    {
        attempts.push(
            match affected[i] {
                Some(attempt) => Some(attempt.attempts),
                None => None,
            },
        );
        assert(attempts@ =~= crate::dispatch::attempts_of(affected@).take(i + 1));
        i = i + 1;
    }
    assert(attempts@ =~= crate::dispatch::attempts_of(affected@));
    attempts
}

fn is_unset<T: Copy>(entries: &Vec<Option<T>>) -> (result: bool)
    ensures
        result == crate::dispatch::unset(entries@),
{
    let mut i: usize = 0;
    while i < entries.len()
        invariant
            i <= entries@.len(),
            forall|j: int| 0 <= j < i ==> (#[trigger] entries@[j]) is None,
        decreases entries@.len() - i,
    {
        if entries[i].is_some() {
            return false;
        }
        i = i + 1;
    }
    true
}

fn does_touch<T: Copy>(entries: &Vec<Option<T>>, mask: &Vec<bool>) -> (result: bool)
    requires
        entries@.len() == mask@.len(),
    ensures
        result == crate::dispatch::touches(entries@, mask@),
{
    let mut i: usize = 0;
    while i < entries.len()
        invariant
            i <= entries@.len(),
            entries@.len() == mask@.len(),
            forall|j: int| 0 <= j < i ==> !(mask@[j] && (#[trigger] entries@[j]) is Some),
        decreases entries@.len() - i,
    {
        if mask[i] && entries[i].is_some() {
            assert(mask@[i as int] && entries@[i as int] is Some);
            return true;
        }
        i = i + 1;
    }
    false
}

/// Marks what is listed.
fn mark<T: Copy>(mask: &mut Vec<bool>, entries: &Vec<Option<T>>)
    requires
        entries@.len() == old(mask)@.len(),
    ensures
        final(mask)@.len() == old(mask)@.len(),
        forall|i: int|
            0 <= i < old(mask)@.len() ==> #[trigger] final(mask)@[i] == (old(mask)@[i]
                || entries@[i] is Some),
{
    let mut i: usize = 0;
    while i < entries.len()
        invariant
            i <= entries@.len(),
            entries@.len() == mask@.len(),
            mask@.len() == old(mask)@.len(),
            forall|j: int|
                0 <= j < i ==> #[trigger] mask@[j] == (old(mask)@[j] || entries@[j] is Some),
            forall|j: int| i <= j < mask@.len() ==> #[trigger] mask@[j] == old(mask)@[j],
        decreases entries@.len() - i,
    {
        if entries[i].is_some() {
            mask.set(i, true);
        }
        i = i + 1;
    }
}

fn extend(actions: &mut Vec<ReconcileAction>, more: Vec<ReconcileAction>)
    ensures
        final(actions)@ == old(actions)@ + more@,
{
    let mut more = more;
    actions.append(&mut more);
}

fn copy_entries<T: Copy>(entries: &Vec<T>) -> (result: Vec<T>)
    ensures
        result@ == entries@,
{
    let mut result: Vec<T> = Vec::new();
    let mut i: usize = 0;
    while i < entries.len()
        invariant
            i <= entries@.len(),
            result@ == entries@.take(i as int),
        decreases entries@.len() - i,
    {
        result.push(entries[i]);
        assert(result@ =~= entries@.take(i + 1));
        i = i + 1;
    }
    assert(result@ =~= entries@);
    result
}

impl Reconciler {
    pub open spec fn view(&self) -> Model {
        Model {
            ids: self.ids@,
            devices: self.devices@,
            group_of: self.group_of@,
            group_ids: self.group_ids@,
            groups: self.groups@,
            transport: self.transport,
            bridge: self.bridge,
            policy: self.retry_policy,
            next_token: self.next_dispatch_token,
            staged: staged_views(self.staged_dispatches@),
            next_sequence: self.next_deferred_sequence,
            deferred: deferred_views(self.deferred_dispatches@),
            last_time: self.last_time,
        }
    }

    pub open spec fn wf(self) -> bool {
        self@.wf()
    }

    /// A copy to work on.
    pub fn copied(&self) -> (result: Self)
        ensures
            result@ == self@,
    {
        let mut ids: Vec<DeviceId> = Vec::new();
        let mut i: usize = 0;
        while i < self.ids.len()
            invariant
                i <= self.ids@.len(),
                ids@ == self.ids@.take(i as int),
            decreases self.ids@.len() - i,
        {
            ids.push(self.ids[i].clone());
            assert(ids@ =~= self.ids@.take(i + 1));
            i = i + 1;
        }
        let mut group_ids: Vec<EntityId> = Vec::new();
        let mut g: usize = 0;
        while g < self.group_ids.len()
            invariant
                g <= self.group_ids@.len(),
                group_ids@ == self.group_ids@.take(g as int),
            decreases self.group_ids@.len() - g,
        {
            group_ids.push(self.group_ids[g].clone());
            assert(group_ids@ =~= self.group_ids@.take(g + 1));
            g = g + 1;
        }
        let mut staged_dispatches: Vec<StagedDispatch> = Vec::new();
        let mut k: usize = 0;
        while k < self.staged_dispatches.len()
            invariant
                k <= self.staged_dispatches@.len(),
                staged_views(staged_dispatches@) == staged_views(self.staged_dispatches@).take(
                    k as int,
                ),
            decreases self.staged_dispatches@.len() - k,
        {
            let entry = &self.staged_dispatches[k];
            let ghost before = staged_views(staged_dispatches@);
            staged_dispatches.push(
                StagedDispatch {
                    token: entry.token,
                    affected: copy_entries(&entry.affected),
                    plan: entry.plan,
                    acceptance_deadline: entry.acceptance_deadline,
                },
            );
            assert(staged_dispatches@.last()@ =~= entry@);
            assert(staged_views(staged_dispatches@) =~= before.push(entry@));
            assert(staged_views(staged_dispatches@) =~= staged_views(
                self.staged_dispatches@,
            ).take(k + 1));
            k = k + 1;
        }
        let mut deferred_dispatches: Vec<DeferredDispatch> = Vec::new();
        let mut l: usize = 0;
        while l < self.deferred_dispatches.len()
            invariant
                l <= self.deferred_dispatches@.len(),
                deferred_views(deferred_dispatches@) == deferred_views(
                    self.deferred_dispatches@,
                ).take(l as int),
            decreases self.deferred_dispatches@.len() - l,
        {
            let entry = &self.deferred_dispatches[l];
            let ghost before = deferred_views(deferred_dispatches@);
            deferred_dispatches.push(
                DeferredDispatch {
                    sequence: entry.sequence,
                    attempts: copy_entries(&entry.attempts),
                    retry_deadline: entry.retry_deadline,
                },
            );
            assert(deferred_dispatches@.last()@ =~= entry@);
            assert(deferred_views(deferred_dispatches@) =~= before.push(entry@));
            assert(deferred_views(deferred_dispatches@) =~= deferred_views(
                self.deferred_dispatches@,
            ).take(l + 1));
            l = l + 1;
        }
        let result = Reconciler {
            ids,
            devices: copy_entries(&self.devices),
            group_of: copy_entries(&self.group_of),
            group_ids,
            groups: copy_entries(&self.groups),
            transport: self.transport,
            bridge: self.bridge,
            retry_policy: self.retry_policy,
            next_dispatch_token: self.next_dispatch_token,
            staged_dispatches,
            next_deferred_sequence: self.next_deferred_sequence,
            deferred_dispatches,
            last_time: self.last_time,
        };
        assert(result@ =~= self@);
        result
    }

    fn find(&self, id: &DeviceId) -> (position: Option<usize>)
        requires
            crate::reconcile::ids_ascend(self.ids@),
        ensures
            match position {
                Some(i) => i < self.ids@.len() && self@.knows(*id) && self@.place(*id) == i
                    && self.ids@[i as int].text@ == id.text@,
                None => !self@.knows(*id),
            },
    {
        let mut i: usize = 0;
        while i < self.ids.len()
            invariant
                i <= self.ids@.len(),
                crate::reconcile::ids_ascend(self.ids@),
                forall|j: int| 0 <= j < i ==> (#[trigger] self.ids@[j]).text@ != id.text@,
            decreases self.ids@.len() - i,
        {
            if text::text_equals(self.ids[i].text.as_str(), id.text.as_str()) {
                proof {
                    assert(self@.ids[i as int].text@ == id.text@);
                    let p = self@.place(*id);
                    text::before_irreflexive(self.ids@[p].key());
                    assert(p == i);
                }
                return Some(i);
            }
            i = i + 1;
        }
        None
    }

    fn find_group(&self, id: &EntityId) -> (position: Option<usize>)
        requires
            self@.groups_wf(),
        ensures
            match position {
                Some(g) => g < self.group_ids@.len() && self@.knows_group(*id)
                    && self@.group_place(*id) == g,
                None => !self@.knows_group(*id),
            },
    {
        let mut g: usize = 0;
        while g < self.group_ids.len()
            invariant
                g <= self.group_ids@.len(),
                self@.groups_wf(),
                forall|j: int| 0 <= j < g ==> (#[trigger] self.group_ids@[j]).text@ != id.text@,
            decreases self.group_ids@.len() - g,
        {
            if text::text_equals(self.group_ids[g].text.as_str(), id.text.as_str()) {
                proof {
                    assert(self@.group_ids[g as int].text@ == id.text@);
                    let p = self@.group_place(*id);
                    text::before_irreflexive(text::bytes_of(self.group_ids@[p].text@));
                    assert(p == g);
                }
                return Some(g);
            }
            g = g + 1;
        }
        None
    }

    fn can_publish(&self) -> (result: bool)
        ensures
            result == self@.can_publish(),
    {
        self.transport == TransportStatus::Connected && self.bridge == Availability::Online
    }

    fn stage_dispatch(
        &mut self,
        batch: Vec<(CommandEntity, DeviceTarget)>,
        affected: Vec<Option<StagedAttempt>>,
        now: MonotonicTime,
    ) -> (result: Result<Vec<ReconcileAction>, ReconcileError>)
        ensures
            took(old(self)@.dispatched(batch@, affected@, now), final(self)@, result),
            result is Err ==> final(self)@ == old(self)@,
    {
        if batch.len() == 0 || is_unset(&affected) {
            let none: Vec<ReconcileAction> = Vec::new();
            assert(none@ =~= Seq::<ReconcileAction>::empty());
            return Ok(none);
        }
        if self.next_dispatch_token == u64::MAX {
            return Err(ReconcileError::DispatchTokenOverflow);
        }
        let token = DispatchToken { value: self.next_dispatch_token };
        let acceptance_deadline = match self.retry_policy.dispatch_acceptance_deadline(now, 0) {
            Ok(deadline) => deadline,
            Err(error) => return Err(error),
        };
        let mut actions: Vec<ReconcileAction> = Vec::new();
        let mut i: usize = 0;
        let ghost expected = crate::dispatch::commands(token, batch@);
        while i < batch.len()
            invariant
                i <= batch@.len(),
                expected == crate::dispatch::commands(token, batch@),
                actions@ == expected.take(i as int),
            decreases batch@.len() - i,
        {
            actions.push(
                ReconcileAction::Command { token, entity: batch[i].0.clone(), target: batch[i].1 },
            );
            assert(actions@ =~= expected.take(i + 1));
            i = i + 1;
        }
        assert(actions@ =~= expected);
        self.next_dispatch_token = self.next_dispatch_token + 1;
        self.staged_dispatches.push(
            StagedDispatch { token: token.value, affected, plan: None, acceptance_deadline },
        );
        proof {
            let next = old(self)@.dispatched(batch@, affected@, now)->Ok_0.0;
            assert(self@.staged =~= next.staged);
            assert(self@ =~= next);
        }
        Ok(actions)
    }

    fn command_device(&mut self, i: usize, attempts: u8, now: MonotonicTime) -> (result: Result<
        Vec<ReconcileAction>,
        ReconcileError,
    >)
        requires
            old(self).wf(),
            i < old(self).ids@.len(),
        ensures
            took(old(self)@.commanded(i as int, attempts, now), final(self)@, result),
    {
        let none: Vec<ReconcileAction> = Vec::new();
        assert(none@ =~= Seq::<ReconcileAction>::empty());
        if !self.can_publish() {
            return Ok(none);
        }
        let state = self.devices[i];
        if state.availability != Availability::Online {
            return Ok(none);
        }
        let target = match state.desired {
            Some(target) => target,
            None => return Ok(none),
        };
        if target_is_empty(target) {
            return Ok(none);
        }
        self.stage_one(i, target, attempts, now)
    }

    /// Stages one command to one device.
    fn stage_one(&mut self, i: usize, target: DeviceTarget, attempts: u8, now: MonotonicTime) -> (result:
        Result<Vec<ReconcileAction>, ReconcileError>)
        requires
            i < old(self).ids@.len(),
        ensures
            took(
                old(self)@.dispatched(
                    seq![(CommandEntity::Device(old(self)@.ids[i as int]), target)],
                    crate::dispatch::sole(
                        old(self)@.ids.len(),
                        i as int,
                        StagedAttempt { target, attempts },
                    ),
                    now,
                ),
                final(self)@,
                result,
            ),
    {
        let n: usize = self.ids.len();
        let mut affected: Vec<Option<StagedAttempt>> = Vec::new();
        let mut j: usize = 0;
        let ghost expected = crate::dispatch::sole(
            n as nat,
            i as int,
            StagedAttempt { target, attempts },
        );
        while j < n
            invariant
                j <= n,
                expected == crate::dispatch::sole(
                    n as nat,
                    i as int,
                    StagedAttempt { target, attempts },
                ),
                affected@ == expected.take(j as int),
            decreases n - j,
        {
            affected.push(
                if j == i {
                    Some(StagedAttempt { target, attempts })
                } else {
                    None
                },
            );
            assert(affected@ =~= expected.take(j + 1));
            j = j + 1;
        }
        assert(affected@ =~= expected);
        let mut batch: Vec<(CommandEntity, DeviceTarget)> = Vec::new();
        batch.push((CommandEntity::Device(self.ids[i].clone()), target));
        assert(batch@ =~= seq![(CommandEntity::Device(self@.ids[i as int]), target)]);
        self.stage_dispatch(batch, affected, now)
    }

    fn stage_current_devices(&mut self, attempts: &Vec<Option<u8>>, now: MonotonicTime) -> (result:
        Result<Vec<ReconcileAction>, ReconcileError>)
        requires
            old(self).wf(),
            attempts@.len() == old(self).ids@.len(),
        ensures
            took(old(self)@.restaged(attempts@, now), final(self)@, result),
    {
        let none: Vec<ReconcileAction> = Vec::new();
        assert(none@ =~= Seq::<ReconcileAction>::empty());
        if !self.can_publish() {
            return Ok(none);
        }
        let n: usize = self.ids.len();
        let mut batch: Vec<(CommandEntity, DeviceTarget)> = Vec::new();
        let mut affected: Vec<Option<StagedAttempt>> = Vec::new();
        let mut i: usize = 0;
        while i < n
            invariant
                i <= n,
                n == self.ids@.len(),
                *self == *old(self),
                self.wf(),
                attempts@.len() == n,
                batch@ == self@.outstanding_batch(attempts@, i as int),
                affected@ == Seq::new(i as nat, |j: int| self@.outstanding(attempts@, j)),
            decreases n - i,
        {
            let state = self.devices[i];
            let current = match (attempts[i], state.desired) {
                (Some(attempts), Some(target)) => {
                    if state.availability == Availability::Online && !state.is_settled()
                        && !target_is_empty(target) {
                        Some(StagedAttempt { target, attempts })
                    } else {
                        None
                    }
                },
                _ => None,
            };
            assert(current == self@.outstanding(attempts@, i as int));
            if let Some(attempt) = current {
                batch.push((CommandEntity::Device(self.ids[i].clone()), attempt.target));
            }
            affected.push(current);
            assert(affected@ =~= Seq::new(
                (i + 1) as nat,
                |j: int| self@.outstanding(attempts@, j),
            ));
            i = i + 1;
        }
        assert(affected@ =~= Seq::new(
            self@.ids.len(),
            |j: int| self@.outstanding(attempts@, j),
        ));
        self.stage_dispatch(batch, affected, now)
    }

    /// Drops the staged batches that touch `mask` and marks their devices.
    fn cancel_staged(&mut self, mask: &Vec<bool>, canceled: &mut Vec<bool>)
        requires
            old(self).wf(),
            mask@.len() == old(self).ids@.len(),
            old(canceled)@.len() == old(self).ids@.len(),
        ensures
            final(self)@ == (Model {
                staged: crate::dispatch::staged_outside(old(self)@.staged, mask@),
                ..old(self)@
            }),
            final(canceled)@.len() == old(canceled)@.len(),
            forall|i: int|
                0 <= i < old(canceled)@.len() ==> #[trigger] final(canceled)@[i] == (old(
                    canceled,
                )@[i] || exists|k: int|
                    0 <= k < old(self)@.staged.len() && crate::dispatch::touches(
                        (#[trigger] old(self)@.staged[k]).affected,
                        mask@,
                    ) && old(self)@.staged[k].affected[i] is Some),
    {
        let ghost all = self@.staged;
        let ghost mut seen = 0int;
        let mut k: usize = 0;
        assert(all.take(0) =~= Seq::<StagedView>::empty());
        assert(all.skip(0) =~= all);
        while k < self.staged_dispatches.len()
            invariant
                0 <= seen <= all.len(),
                all == old(self)@.staged,
                old(self).wf(),
                mask@.len() == old(self).ids@.len(),
                self.ids == old(self).ids,
                self.devices == old(self).devices,
                self.group_of == old(self).group_of,
                self.group_ids == old(self).group_ids,
                self.groups == old(self).groups,
                self.transport == old(self).transport,
                self.bridge == old(self).bridge,
                self.retry_policy == old(self).retry_policy,
                self.next_dispatch_token == old(self).next_dispatch_token,
                self.next_deferred_sequence == old(self).next_deferred_sequence,
                self.deferred_dispatches == old(self).deferred_dispatches,
                self.last_time == old(self).last_time,
                k == crate::dispatch::staged_outside(all.take(seen), mask@).len(),
                self.staged_dispatches@.len() == k + all.len() - seen,
                staged_views(self.staged_dispatches@) == crate::dispatch::staged_outside(
                    all.take(seen),
                    mask@,
                ) + all.skip(seen),
                canceled@.len() == old(canceled)@.len(),
                old(canceled)@.len() == old(self).ids@.len(),
                forall|i: int|
                    0 <= i < canceled@.len() ==> #[trigger] canceled@[i] == (old(canceled)@[i]
                        || exists|j: int|
                        0 <= j < seen && crate::dispatch::touches(
                            (#[trigger] all[j]).affected,
                            mask@,
                        ) && all[j].affected[i] is Some),
            decreases all.len() - seen,
        {
            let ghost kept = crate::dispatch::staged_outside(all.take(seen), mask@);
            let ghost before = canceled@;
            proof {
                assert(staged_views(self.staged_dispatches@)[k as int] == all.skip(seen)[0]);
                assert(self.staged_dispatches@[k as int]@ == all[seen]);
                assert(old(self)@.staged_entry_wf(all[seen]));
                assert(all.take(seen + 1).drop_last() =~= all.take(seen));
            }
            if does_touch(&self.staged_dispatches[k].affected, mask) {
                mark(canceled, &self.staged_dispatches[k].affected);
                let ghost views = staged_views(self.staged_dispatches@);
                let ghost entries = self.staged_dispatches@;
                let _ = self.staged_dispatches.remove(k);
                proof {
                    assert(staged_views(self.staged_dispatches@) =~= views.remove(k as int));
                    assert(views.remove(k as int) =~= kept + all.skip(seen + 1));
                    assert forall|i: int| 0 <= i < canceled@.len() implies #[trigger] canceled@[i]
                        == (old(canceled)@[i] || exists|j: int|
                        0 <= j < seen + 1 && crate::dispatch::touches(
                            (#[trigger] all[j]).affected,
                            mask@,
                        ) && all[j].affected[i] is Some) by {
                        assert(canceled@[i] == (before[i] || all[seen].affected[i] is Some));
                        if before[i] && !old(canceled)@[i] {
                            let j = choose|j: int|
                                0 <= j < seen && crate::dispatch::touches(
                                    (#[trigger] all[j]).affected,
                                    mask@,
                                ) && all[j].affected[i] is Some;
                            assert(0 <= j < seen + 1);
                        }
                    }
                    seen = seen + 1;
                }
            } else {
                k = k + 1;
                proof {
                    assert(staged_views(self.staged_dispatches@) =~= kept.push(all[seen])
                        + all.skip(seen + 1));
                    assert forall|i: int| 0 <= i < canceled@.len() implies #[trigger] canceled@[i]
                        == (old(canceled)@[i] || exists|j: int|
                        0 <= j < seen + 1 && crate::dispatch::touches(
                            (#[trigger] all[j]).affected,
                            mask@,
                        ) && all[j].affected[i] is Some) by {
                        if before[i] && !old(canceled)@[i] {
                            let j = choose|j: int|
                                0 <= j < seen && crate::dispatch::touches(
                                    (#[trigger] all[j]).affected,
                                    mask@,
                                ) && all[j].affected[i] is Some;
                            assert(0 <= j < seen + 1);
                        }
                    }
                    seen = seen + 1;
                }
            }
        }
        proof {
            assert(seen == all.len());
            assert(all.take(seen) =~= all);
            assert(all.skip(seen) =~= Seq::<StagedView>::empty());
            assert(self@.staged =~= crate::dispatch::staged_outside(all, mask@));
            assert(self@ =~= Model {
                staged: crate::dispatch::staged_outside(old(self)@.staged, mask@),
                ..old(self)@
            });
        }
    }

    /// Drops the deferred batches that touch `mask` and marks their devices.
    fn cancel_deferred(&mut self, mask: &Vec<bool>, canceled: &mut Vec<bool>)
        requires
            old(self)@.deferred_wf(),
            mask@.len() == old(self).ids@.len(),
            old(canceled)@.len() == old(self).ids@.len(),
        ensures
            final(self)@ == (Model {
                deferred: crate::dispatch::deferred_outside(old(self)@.deferred, mask@),
                ..old(self)@
            }),
            final(canceled)@.len() == old(canceled)@.len(),
            forall|i: int|
                0 <= i < old(canceled)@.len() ==> #[trigger] final(canceled)@[i] == (old(
                    canceled,
                )@[i] || exists|k: int|
                    0 <= k < old(self)@.deferred.len() && crate::dispatch::touches(
                        (#[trigger] old(self)@.deferred[k]).attempts,
                        mask@,
                    ) && old(self)@.deferred[k].attempts[i] is Some),
    {
        let ghost all = self@.deferred;
        let ghost mut seen = 0int;
        let mut k: usize = 0;
        assert(all.take(0) =~= Seq::<DeferredView>::empty());
        assert(all.skip(0) =~= all);
        while k < self.deferred_dispatches.len()
            invariant
                0 <= seen <= all.len(),
                all == old(self)@.deferred,
                old(self)@.deferred_wf(),
                mask@.len() == old(self).ids@.len(),
                self.ids == old(self).ids,
                self.devices == old(self).devices,
                self.group_of == old(self).group_of,
                self.group_ids == old(self).group_ids,
                self.groups == old(self).groups,
                self.transport == old(self).transport,
                self.bridge == old(self).bridge,
                self.retry_policy == old(self).retry_policy,
                self.next_dispatch_token == old(self).next_dispatch_token,
                self.next_deferred_sequence == old(self).next_deferred_sequence,
                self.staged_dispatches == old(self).staged_dispatches,
                self.last_time == old(self).last_time,
                k == crate::dispatch::deferred_outside(all.take(seen), mask@).len(),
                self.deferred_dispatches@.len() == k + all.len() - seen,
                deferred_views(self.deferred_dispatches@) == crate::dispatch::deferred_outside(
                    all.take(seen),
                    mask@,
                ) + all.skip(seen),
                canceled@.len() == old(canceled)@.len(),
                old(canceled)@.len() == old(self).ids@.len(),
                forall|i: int|
                    0 <= i < canceled@.len() ==> #[trigger] canceled@[i] == (old(canceled)@[i]
                        || exists|j: int|
                        0 <= j < seen && crate::dispatch::touches(
                            (#[trigger] all[j]).attempts,
                            mask@,
                        ) && all[j].attempts[i] is Some),
            decreases all.len() - seen,
        {
            let ghost kept = crate::dispatch::deferred_outside(all.take(seen), mask@);
            let ghost before = canceled@;
            proof {
                assert(deferred_views(self.deferred_dispatches@)[k as int] == all.skip(seen)[0]);
                assert(self.deferred_dispatches@[k as int]@ == all[seen]);
                assert(old(self)@.deferred_entry_wf(all[seen]));
                assert(all.take(seen + 1).drop_last() =~= all.take(seen));
            }
            if does_touch(&self.deferred_dispatches[k].attempts, mask) {
                mark(canceled, &self.deferred_dispatches[k].attempts);
                let ghost views = deferred_views(self.deferred_dispatches@);
                let _ = self.deferred_dispatches.remove(k);
                proof {
                    assert(deferred_views(self.deferred_dispatches@) =~= views.remove(k as int));
                    assert(views.remove(k as int) =~= kept + all.skip(seen + 1));
                    assert forall|i: int| 0 <= i < canceled@.len() implies #[trigger] canceled@[i]
                        == (old(canceled)@[i] || exists|j: int|
                        0 <= j < seen + 1 && crate::dispatch::touches(
                            (#[trigger] all[j]).attempts,
                            mask@,
                        ) && all[j].attempts[i] is Some) by {
                        assert(canceled@[i] == (before[i] || all[seen].attempts[i] is Some));
                        if before[i] && !old(canceled)@[i] {
                            let j = choose|j: int|
                                0 <= j < seen && crate::dispatch::touches(
                                    (#[trigger] all[j]).attempts,
                                    mask@,
                                ) && all[j].attempts[i] is Some;
                            assert(0 <= j < seen + 1);
                        }
                    }
                    seen = seen + 1;
                }
            } else {
                k = k + 1;
                proof {
                    assert(deferred_views(self.deferred_dispatches@) =~= kept.push(all[seen])
                        + all.skip(seen + 1));
                    assert forall|i: int| 0 <= i < canceled@.len() implies #[trigger] canceled@[i]
                        == (old(canceled)@[i] || exists|j: int|
                        0 <= j < seen + 1 && crate::dispatch::touches(
                            (#[trigger] all[j]).attempts,
                            mask@,
                        ) && all[j].attempts[i] is Some) by {
                        if before[i] && !old(canceled)@[i] {
                            let j = choose|j: int|
                                0 <= j < seen && crate::dispatch::touches(
                                    (#[trigger] all[j]).attempts,
                                    mask@,
                                ) && all[j].attempts[i] is Some;
                            assert(0 <= j < seen + 1);
                        }
                    }
                    seen = seen + 1;
                }
            }
        }
        proof {
            assert(seen == all.len());
            assert(all.take(seen) =~= all);
            assert(all.skip(seen) =~= Seq::<DeferredView>::empty());
            assert(self@.deferred =~= crate::dispatch::deferred_outside(all, mask@));
            assert(self@ =~= Model {
                deferred: crate::dispatch::deferred_outside(old(self)@.deferred, mask@),
                ..old(self)@
            });
        }
    }

    /// Drops all work that touches `mask`, and tells whose.
    fn cancel_work(&mut self, mask: &Vec<bool>) -> (canceled: Vec<bool>)
        requires
            old(self).wf(),
            mask@.len() == old(self).ids@.len(),
        ensures
            final(self)@ == old(self)@.without_work(mask@),
            canceled@ == old(self)@.canceled(mask@),
            final(self).wf(),
    {
        let mut canceled = all_clear(self.ids.len());
        proof {
            self@.without_work_keeps(mask@);
        }
        self.cancel_staged(mask, &mut canceled);
        self.cancel_deferred(mask, &mut canceled);
        assert(canceled@ =~= old(self)@.canceled(mask@));
        canceled
    }

    fn defer_attempts(&mut self, attempts: Vec<Option<u8>>, now: MonotonicTime) -> (result: Result<
        (),
        ReconcileError,
    >)
        ensures
            match old(self)@.postponed(attempts@, now) {
                Ok(next) => result is Ok && final(self)@ == next,
                Err(error) => result == Err::<(), ReconcileError>(error),
            },
    {
        if is_unset(&attempts) {
            return Ok(());
        }
        let retry_deadline = match self.retry_policy.dispatch_failure_deadline(now) {
            Ok(deadline) => deadline,
            Err(error) => return Err(error),
        };
        let sequence: u64 = self.next_deferred_sequence;
        if sequence == u64::MAX {
            return Err(ReconcileError::DeferredSequenceOverflow);
        }
        self.next_deferred_sequence = sequence + 1;
        self.deferred_dispatches.push(DeferredDispatch { sequence, attempts, retry_deadline });
        proof {
            let next = old(self)@.postponed(attempts@, now)->Ok_0;
            assert(self@.deferred =~= next.deferred);
            assert(self@ =~= next);
        }
        Ok(())
    }
}

impl Reconciler {
    /// The devices of group `g`.
    fn members(&self, g: usize) -> (mask: Vec<bool>)
        requires
            self.wf(),
        ensures
            mask@ == self@.members(g as int),
    {
        let mut mask: Vec<bool> = Vec::new();
        let mut i: usize = 0;
        while i < self.ids.len()
            invariant
                i <= self.ids@.len(),
                self.wf(),
                mask@ == self@.members(g as int).take(i as int),
            decreases self.ids@.len() - i,
        {
            mask.push(
                match self.group_of[i] {
                    Some(h) => h == g,
                    None => false,
                },
            );
            assert(mask@ =~= self@.members(g as int).take(i + 1));
            i = i + 1;
        }
        assert(mask@ =~= self@.members(g as int));
        mask
    }

    /// Whether all, and whether some, of `members` are online.
    fn presence(&self, members: &Vec<bool>) -> (result: (bool, bool))
        requires
            self.wf(),
            members@.len() == self.ids@.len(),
        ensures
            result.0 == (forall|i: int|
                0 <= i < members@.len() && #[trigger] members@[i] ==> self@.online(i)),
            result.1 == (exists|i: int|
                0 <= i < members@.len() && #[trigger] members@[i] && self@.online(i)),
    {
        let mut all: bool = true;
        let mut some: bool = false;
        let mut i: usize = 0;
        while i < self.ids.len()
            invariant
                i <= self.ids@.len(),
                self.wf(),
                members@.len() == self.ids@.len(),
                all == (forall|j: int|
                    0 <= j < i && #[trigger] members@[j] ==> self@.online(j)),
                some == (exists|j: int|
                    0 <= j < i && #[trigger] members@[j] && self@.online(j)),
            decreases self.ids@.len() - i,
        {
            let online = self.devices[i].availability == Availability::Online;
            assert(online == self@.online(i as int));
            if members[i] {
                if online {
                    some = true;
                    assert(members@[i as int] && self@.online(i as int));
                } else {
                    all = false;
                    assert(members@[i as int] && !self@.online(i as int));
                }
            }
            i = i + 1;
        }
        (all, some)
    }

    fn command_group_with_fallbacks(
        &mut self,
        g: usize,
        target: DeviceTarget,
        send: bool,
        changed: &Vec<bool>,
        now: MonotonicTime,
    ) -> (result: Result<Vec<ReconcileAction>, ReconcileError>)
        requires
            old(self).wf(),
            g < old(self).groups@.len(),
            old(self).groups@[g as int].command_target is Some,
            changed@.len() == old(self).ids@.len(),
        ensures
            took(
                old(self)@.group_commanded(g as int, target, send, changed@, now),
                final(self)@,
                result,
            ),
    {
        let none: Vec<ReconcileAction> = Vec::new();
        assert(none@ =~= Seq::<ReconcileAction>::empty());
        if !self.can_publish() {
            return Ok(none);
        }
        let members = self.members(g);
        let (all, some) = self.presence(&members);
        if !some {
            return Ok(none);
        }
        let sent = send && !target_is_empty(target) && all;
        assert(sent == self@.group_sent(members@, target, send));
        let n: usize = self.ids.len();
        let mut batch: Vec<(CommandEntity, DeviceTarget)> = Vec::new();
        if sent {
            batch.push((CommandEntity::Group(self.group_ids[g].clone()), target));
        }
        let ghost head = batch@;
        let mut affected: Vec<Option<StagedAttempt>> = Vec::new();
        let ghost expected = Seq::new(
            self@.ids.len(),
            |i: int|
                if members@[i] && self@.online(i) && (sent || self@.fallback_sent(
                    i,
                    target,
                    sent,
                    changed@,
                )) {
                    Some(StagedAttempt { target: self@.devices[i].desired->0, attempts: 1u8 })
                } else {
                    None
                },
        );
        let mut i: usize = 0;
        assert(batch@ =~= head + self@.fallback_batch(members@, target, sent, changed@, 0));
        while i < n
            invariant
                i <= n,
                n == self.ids@.len(),
                *self == *old(self),
                self.wf(),
                g < self.groups@.len(),
                self.groups@[g as int].command_target is Some,
                members@ == self@.members(g as int),
                changed@.len() == n,
                batch@ == head + self@.fallback_batch(members@, target, sent, changed@, i as int),
                affected@ == expected.take(i as int),
                expected == Seq::new(
                    self@.ids.len(),
                    |i: int|
                        if members@[i] && self@.online(i) && (sent || self@.fallback_sent(
                            i,
                            target,
                            sent,
                            changed@,
                        )) {
                            Some(
                                StagedAttempt {
                                    target: self@.devices[i].desired->0,
                                    attempts: 1u8,
                                },
                            )
                        } else {
                            None
                        },
                ),
            decreases n - i,
        {
            let ghost before = batch@;
            let mut entry: Option<StagedAttempt> = None;
            if members[i] && self.devices[i].availability == Availability::Online {
                assert(self@.group_of[i as int] == Some(g));
                if let Some(desired) = self.devices[i].desired {
                    let fallback = if sent {
                        target_difference(desired, target)
                    } else {
                        desired
                    };
                    let fallback_sent = !target_is_empty(fallback) && (sent || changed[i]);
                    if fallback_sent {
                        batch.push((CommandEntity::Device(self.ids[i].clone()), fallback));
                    }
                    if sent || fallback_sent {
                        entry = Some(StagedAttempt { target: desired, attempts: 1 });
                    }
                }
            }
            affected.push(entry);
            proof {
                assert(affected@ =~= expected.take(i + 1));
                assert(batch@ =~= head + self@.fallback_batch(
                    members@,
                    target,
                    sent,
                    changed@,
                    i + 1,
                ));
            }
            i = i + 1;
        }
        proof {
            assert(affected@ =~= expected);
            let fallbacks = self@.fallback_batch(members@, target, sent, changed@, n as int);
            assert(batch@ =~= if sent {
                seq![(CommandEntity::Group(self@.group_ids[g as int]), target)] + fallbacks
            } else {
                fallbacks
            });
            let spec_affected = Seq::new(
                self@.ids.len(),
                |i: int|
                    if self@.members(g as int)[i] && self@.online(i) && (sent
                        || self@.fallback_sent(i, target, sent, changed@)) {
                        Some(
                            StagedAttempt { target: self@.devices[i].desired->0, attempts: 1u8 },
                        )
                    } else {
                        None
                    },
            );
            assert(spec_affected =~= expected);
        }
        self.stage_dispatch(batch, affected, now)
    }

    fn reconcile_all(&mut self, now: MonotonicTime) -> (result: Result<
        Vec<ReconcileAction>,
        ReconcileError,
    >)
        requires
            old(self).wf(),
        ensures
            took(old(self)@.all_commanded(now), final(self)@, result),
    {
        let mut actions: Vec<ReconcileAction> = Vec::new();
        assert(actions@ =~= Seq::<ReconcileAction>::empty());
        if !self.can_publish() {
            return Ok(actions);
        }
        let ghost start = self@;
        let ghost groups = start.groups.len() as int;
        let n: usize = self.ids.len();
        let mut g: usize = 0;
        while g < self.groups.len()
            invariant
                g <= self.groups@.len(),
                n == start.ids.len(),
                start.wf(),
                groups == start.groups.len(),
                start == old(self)@,
                start.can_publish(),
                self.wf(),
                self@.same_base(start),
                start.groups_commanded(g as int, now) == Ok::<
                    (Model, Seq<ReconcileAction>),
                    ReconcileError,
                >((self@, actions@)),
            decreases self.groups@.len() - g,
        {
            if let Some(target) = self.groups[g].command_target {
                let members = self.members(g);
                let ghost here = self@;
                match self.command_group_with_fallbacks(g, target, true, &members, now) {
                    Ok(more) => {
                        extend(&mut actions, more);
                        proof {
                            start.groups_commanded_keeps(g + 1, now);
                        }
                    },
                    Err(error) => {
                        proof {
                            lemma_groups_fail(start, g + 1, groups, now);
                            lemma_singles_fail(
                                start,
                                start.groups_commanded(groups, now),
                                0,
                                n as int,
                                now,
                            );
                        }
                        return Err(error);
                    },
                }
            }
            g = g + 1;
        }
        let ghost middle = start.groups_commanded(groups, now);
        let mut i: usize = 0;
        while i < n
            invariant
                i <= n,
                n == start.ids.len(),
                start.wf(),
                groups == start.groups.len(),
                start == old(self)@,
                start.can_publish(),
                self.wf(),
                self@.same_base(start),
                middle == start.groups_commanded(groups, now),
                start.singles_commanded(middle, i as int, now) == Ok::<
                    (Model, Seq<ReconcileAction>),
                    ReconcileError,
                >((self@, actions@)),
            decreases n - i,
        {
            let grouped = match self.group_of[i] {
                Some(h) => {
                    assert(self@.group_of[i as int] == Some(h));
                    self.groups[h].command_target.is_some()
                },
                None => false,
            };
            assert(grouped == start.grouped(i as int));
            if !grouped {
                match self.command_device(i, 1, now) {
                    Ok(more) => {
                        extend(&mut actions, more);
                        proof {
                            start.singles_commanded_keeps(i + 1, now);
                        }
                    },
                    Err(error) => {
                        proof {
                            lemma_singles_fail(start, middle, i + 1, n as int, now);
                        }
                        return Err(error);
                    },
                }
            }
            i = i + 1;
        }
        Ok(actions)
    }

    fn command_chosen(&mut self, chosen: &Vec<DeviceId>, now: MonotonicTime) -> (result: Result<
        Vec<ReconcileAction>,
        ReconcileError,
    >)
        requires
            old(self).wf(),
        ensures
            took(old(self)@.refreshed(chosen@, now), final(self)@, result),
    {
        let mut actions: Vec<ReconcileAction> = Vec::new();
        assert(actions@ =~= Seq::<ReconcileAction>::empty());
        if !self.can_publish() {
            return Ok(actions);
        }
        let ghost start = self@;
        let mut i: usize = 0;
        while i < chosen.len()
            invariant
                i <= chosen@.len(),
                start.wf(),
                start == old(self)@,
                start.can_publish(),
                self.wf(),
                self@.same_base(start),
                start.chosen_commanded(chosen@, i as int, now) == Ok::<
                    (Model, Seq<ReconcileAction>),
                    ReconcileError,
                >((self@, actions@)),
            decreases chosen@.len() - i,
        {
            let position = match self.find(&chosen[i]) {
                Some(position) => position,
                None => {
                    proof {
                        lemma_chosen_fail(start, chosen@, i + 1, chosen@.len() as int, now);
                    }
                    return Err(ReconcileError::UnknownDevice(chosen[i].clone()));
                },
            };
            match self.command_device(position, 1, now) {
                Ok(more) => {
                    extend(&mut actions, more);
                    proof {
                        start.chosen_commanded_keeps(chosen@, i + 1, now);
                    }
                },
                Err(error) => {
                    proof {
                        lemma_chosen_fail(start, chosen@, i + 1, chosen@.len() as int, now);
                    }
                    return Err(error);
                },
            }
            i = i + 1;
        }
        Ok(actions)
    }
}

/// A failure while groups are commanded ends the step.
proof fn lemma_groups_fail(start: Model, n: int, m: int, now: MonotonicTime)
    requires
        0 < n <= m,
        start.groups_commanded(n, now) is Err,
    ensures
        start.groups_commanded(m, now) == start.groups_commanded(n, now),
    decreases m - n,
{
    if n < m {
        lemma_groups_fail(start, n, m - 1, now);
    }
}

/// A failure while single devices are commanded ends the step.
proof fn lemma_singles_fail(
    start: Model,
    middle: crate::dispatch::Step,
    n: int,
    m: int,
    now: MonotonicTime,
)
    requires
        0 <= n <= m,
        start.singles_commanded(middle, n, now) is Err,
    ensures
        start.singles_commanded(middle, m, now) == start.singles_commanded(middle, n, now),
    decreases m - n,
{
    if n < m {
        lemma_singles_fail(start, middle, n, m - 1, now);
    }
}

proof fn lemma_chosen_fail(start: Model, chosen: Seq<DeviceId>, n: int, m: int, now: MonotonicTime)
    requires
        0 < n <= m,
        start.chosen_commanded(chosen, n, now) is Err,
    ensures
        start.chosen_commanded(chosen, m, now) == start.chosen_commanded(chosen, n, now),
    decreases m - n,
{
    if n < m {
        lemma_chosen_fail(start, chosen, n, m - 1, now);
    }
}

impl Reconciler {
    fn has_regressed(&self, now: MonotonicTime) -> (result: bool)
        ensures
            result == self@.regressed(now),
    {
        match self.last_time {
            Some(previous) => now.is_before(previous),
            None => false,
        }
    }

    /// Takes over the state after an operation at `now`.
    fn commit(&mut self, next: Reconciler, now: MonotonicTime)
        requires
            next.wf(),
        ensures
            final(self)@ == (Model { last_time: Some(now), ..next@ }),
            final(self).wf(),
    {
        proof {
            next@.time_keeps(Some(now));
        }
        *self = next;
        self.last_time = Some(now);
        assert(self@ =~= Model { last_time: Some(now), ..next@ });
    }

    /// Forgets all work and what is known of availability.
    fn make_idle(&mut self)
        requires
            old(self).wf(),
        ensures
            final(self)@ == old(self)@.idle(),
    {
        let mut i: usize = 0;
        while i < self.devices.len()
            invariant
                i <= self.devices@.len(),
                self.devices@.len() == old(self).devices@.len(),
                self.ids == old(self).ids,
                self.group_of == old(self).group_of,
                self.group_ids == old(self).group_ids,
                self.groups == old(self).groups,
                self.transport == old(self).transport,
                self.bridge == old(self).bridge,
                self.retry_policy == old(self).retry_policy,
                self.next_dispatch_token == old(self).next_dispatch_token,
                self.next_deferred_sequence == old(self).next_deferred_sequence,
                self.last_time == old(self).last_time,
                forall|j: int|
                    0 <= j < i ==> #[trigger] self.devices@[j] == old(self)@.idle().devices[j],
                forall|j: int|
                    i <= j < self.devices@.len() ==> #[trigger] self.devices@[j] == old(
                        self,
                    ).devices@[j],
            decreases self.devices@.len() - i,
        {
            let mut state = self.devices[i];
            state.availability = Availability::Unknown;
            state.pending = None;
            self.devices.set(i, state);
            i = i + 1;
        }
        self.staged_dispatches = Vec::new();
        self.deferred_dispatches = Vec::new();
        proof {
            assert(self@.staged =~= Seq::<StagedView>::empty());
            assert(self@.deferred =~= Seq::<DeferredView>::empty());
            assert(self@.devices =~= old(self)@.idle().devices);
            assert(self@ =~= old(self)@.idle());
        }
    }

    pub fn transport_status(&self) -> (status: TransportStatus)
        ensures
            status == self.transport,
    {
        self.transport
    }

    pub fn bridge_availability(&self) -> (availability: Availability)
        ensures
            availability == self.bridge,
    {
        self.bridge
    }

    pub fn device_state(&self, id: &DeviceId) -> (result: Result<&DeviceState, ReconcileError>)
        requires
            self.wf(),
        ensures
            match result {
                Ok(state) => self@.knows(*id) && *state == self@.devices[self@.place(*id)],
                Err(error) => !self@.knows(*id) && error == ReconcileError::UnknownDevice(*id),
            },
    {
        match self.find(id) {
            Some(i) => Ok(&self.devices[i]),
            None => Err(ReconcileError::UnknownDevice(id.clone())),
        }
    }

    pub fn broker_disconnected(&mut self, now: MonotonicTime) -> (result: Result<(), ReconcileError>)
        requires
            old(self).wf(),
        ensures
            returned(
                old(self)@.completed(now, Ok((old(self)@.disconnected(), ()))),
                old(self)@,
                final(self)@,
                result,
            ),
            final(self).wf(),
    {
        if self.has_regressed(now) {
            return Err(ReconcileError::MonotonicClockRegressed);
        }
        let mut next = self.copied();
        next.make_idle();
        next.transport = TransportStatus::Disconnected;
        next.bridge = Availability::Unknown;
        proof {
            assert(next@ =~= self@.disconnected());
            self@.disconnected_keeps();
        }
        self.commit(next, now);
        Ok(())
    }

    fn connect(&mut self, now: MonotonicTime) -> (result: Result<
        Vec<ReconcileAction>,
        ReconcileError,
    >)
        requires
            old(self).wf(),
        ensures
            took(old(self)@.connected(now), final(self)@, result),
    {
        let mut actions: Vec<ReconcileAction> = Vec::new();
        assert(actions@ =~= Seq::<ReconcileAction>::empty());
        if self.transport == TransportStatus::Connected {
            return Ok(actions);
        }
        self.transport = TransportStatus::Connected;
        actions.push(ReconcileAction::Resubscribe);
        let ghost expected = old(self)@.greetings();
        assert(actions@ =~= expected.take(1));
        let mut i: usize = 0;
        while i < self.ids.len()
            invariant
                i <= self.ids@.len(),
                self.ids == old(self).ids,
                expected == old(self)@.greetings(),
                actions@ == expected.take(i + 1),
            decreases self.ids@.len() - i,
        {
            actions.push(ReconcileAction::RequestState(self.ids[i].clone()));
            assert(actions@ =~= expected.take(i + 2));
            i = i + 1;
        }
        assert(actions@ =~= expected);
        proof {
            let next = Model { transport: TransportStatus::Connected, ..old(self)@ };
            assert(self@ =~= next);
            old(self)@.transport_keeps(TransportStatus::Connected);
        }
        match self.reconcile_all(now) {
            Ok(more) => {
                extend(&mut actions, more);
                Ok(actions)
            },
            Err(error) => Err(error),
        }
    }

    pub fn broker_connected(&mut self, now: MonotonicTime) -> (result: Result<
        Vec<ReconcileAction>,
        ReconcileError,
    >)
        requires
            old(self).wf(),
        ensures
            performed(
                old(self)@.transacted(now, old(self)@.connected(now)),
                old(self)@,
                final(self)@,
                result,
            ),
            final(self).wf(),
    {
        if self.has_regressed(now) {
            return Err(ReconcileError::MonotonicClockRegressed);
        }
        let mut next = self.copied();
        match next.connect(now) {
            Ok(actions) => {
                proof {
                    self@.connected_keeps(now);
                }
                self.commit(next, now);
                Ok(actions)
            },
            Err(error) => Err(error),
        }
    }

    /// Reissues the desired state of devices in the order in which they are given.
    pub(crate) fn reissue(&mut self, devices: &Vec<DeviceId>, now: MonotonicTime) -> (result:
        Result<Vec<ReconcileAction>, ReconcileError>)
        requires
            old(self).wf(),
        ensures
            performed(
                old(self)@.transacted(now, old(self)@.refreshed(devices@, now)),
                old(self)@,
                final(self)@,
                result,
            ),
            final(self).wf(),
    {
        if self.has_regressed(now) {
            return Err(ReconcileError::MonotonicClockRegressed);
        }
        let mut next = self.copied();
        match next.command_chosen(devices, now) {
            Ok(actions) => {
                proof {
                    self@.chosen_commanded_keeps(devices@, devices@.len() as int, now);
                }
                self.commit(next, now);
                Ok(actions)
            },
            Err(error) => Err(error),
        }
    }

    /// Reissues desired state only for devices whose bounded refresh is due. They are
    /// taken as a set: each counts once, in the order of their names.
    pub fn force_reconcile_devices(&mut self, devices: &Vec<DeviceId>, now: MonotonicTime) -> (result:
        Result<Vec<ReconcileAction>, ReconcileError>)
        requires
            old(self).wf(),
        ensures
            exists|chosen: Seq<DeviceId>| #[trigger]
                crate::reconcile::same_set(devices@, chosen) && performed(
                    old(self)@.transacted(now, old(self)@.refreshed(chosen, now)),
                    old(self)@,
                    final(self)@,
                    result,
                ),
            final(self).wf(),
    {
        let chosen = crate::reconcile::distinct(devices);
        self.reissue(&chosen, now)
    }

    fn bridge_changed(&mut self, availability: Availability, now: MonotonicTime) -> (result: Result<
        Vec<ReconcileAction>,
        ReconcileError,
    >)
        requires
            old(self).wf(),
        ensures
            took(old(self)@.bridged(availability, now), final(self)@, result),
    {
        let previous = self.bridge;
        if availability != Availability::Online {
            self.make_idle();
        }
        self.bridge = availability;
        let ghost next = Model {
            bridge: availability,
            ..if availability is Online {
                old(self)@
            } else {
                old(self)@.idle()
            }
        };
        assert(self@ =~= next);
        if previous != Availability::Online && availability == Availability::Online {
            proof {
                old(self)@.bridge_keeps(availability);
            }
            self.reconcile_all(now)
        } else {
            let none: Vec<ReconcileAction> = Vec::new();
            assert(none@ =~= Seq::<ReconcileAction>::empty());
            Ok(none)
        }
    }

    pub fn set_bridge_availability(&mut self, availability: Availability, now: MonotonicTime) -> (result:
        Result<Vec<ReconcileAction>, ReconcileError>)
        requires
            old(self).wf(),
        ensures
            performed(
                old(self)@.transacted(now, old(self)@.bridged(availability, now)),
                old(self)@,
                final(self)@,
                result,
            ),
            final(self).wf(),
    {
        if self.has_regressed(now) {
            return Err(ReconcileError::MonotonicClockRegressed);
        }
        let mut next = self.copied();
        match next.bridge_changed(availability, now) {
            Ok(actions) => {
                proof {
                    self@.bridged_keeps(availability, now);
                }
                self.commit(next, now);
                Ok(actions)
            },
            Err(error) => Err(error),
        }
    }

    /// Replaces the state of device `i`.
    fn set_device(&mut self, i: usize, state: DeviceState)
        requires
            old(self).wf(),
            i < old(self).ids@.len(),
        ensures
            final(self)@ == old(self)@.with_device(i as int, state),
    {
        self.devices.set(i, state);
        assert(self@ =~= old(self)@.with_device(i as int, state));
    }

    fn availability_changed(&mut self, i: usize, availability: Availability, now: MonotonicTime) -> (result:
        Result<Vec<ReconcileAction>, ReconcileError>)
        requires
            old(self).wf(),
            i < old(self).ids@.len(),
        ensures
            took(old(self)@.made_available(i as int, availability, now), final(self)@, result),
    {
        let previous = self.devices[i];
        let mut state = previous;
        state.availability = availability;
        if availability != Availability::Online {
            state.pending = None;
        }
        proof {
            self@.device_keeps(i as int, state);
        }
        self.set_device(i, state);
        if availability == Availability::Online {
            if previous.availability == Availability::Online {
                let none: Vec<ReconcileAction> = Vec::new();
                assert(none@ =~= Seq::<ReconcileAction>::empty());
                return Ok(none);
            }
            return self.command_device(i, 1, now);
        }
        let mask = single(self.ids.len(), i);
        let canceled = self.cancel_work(&mask);
        self.stage_current_devices(&first_attempts(&canceled), now)
    }

    pub fn set_device_availability(
        &mut self,
        id: &DeviceId,
        availability: Availability,
        now: MonotonicTime,
    ) -> (result: Result<Vec<ReconcileAction>, ReconcileError>)
        requires
            old(self).wf(),
        ensures
            performed(
                old(self)@.transacted(
                    now,
                    old(self)@.of_device(
                        *id,
                        old(self)@.made_available(old(self)@.place(*id), availability, now),
                    ),
                ),
                old(self)@,
                final(self)@,
                result,
            ),
            final(self).wf(),
    {
        if self.has_regressed(now) {
            return Err(ReconcileError::MonotonicClockRegressed);
        }
        let i: usize = match self.find(id) {
            Some(i) => i,
            None => return Err(ReconcileError::UnknownDevice(id.clone())),
        };
        let mut next = self.copied();
        match next.availability_changed(i, availability, now) {
            Ok(actions) => {
                proof {
                    self@.made_available_keeps(i as int, availability, now);
                }
                self.commit(next, now);
                Ok(actions)
            },
            Err(error) => Err(error),
        }
    }

    fn desired_changed(&mut self, i: usize, target: LightTarget, now: MonotonicTime) -> (result:
        Result<Vec<ReconcileAction>, ReconcileError>)
        requires
            old(self).wf(),
            i < old(self).ids@.len(),
        ensures
            took(old(self)@.desired(i as int, target, now), final(self)@, result),
    {
        let state = self.devices[i];
        let wanted = state.capabilities.degrade(&target);
        if state.has_desired(&wanted) {
            let none: Vec<ReconcileAction> = Vec::new();
            assert(none@ =~= Seq::<ReconcileAction>::empty());
            return Ok(none);
        }
        let changed = state.with_desired(wanted);
        proof {
            self@.device_keeps(i as int, changed);
        }
        self.set_device(i, changed);
        let mask = single(self.ids.len(), i);
        let mut canceled = self.cancel_work(&mask);
        canceled.set(i, !changed.in_sync);
        self.stage_current_devices(&first_attempts(&canceled), now)
    }

    pub fn set_device_desired(&mut self, id: &DeviceId, target: LightTarget, now: MonotonicTime) -> (result:
        Result<Vec<ReconcileAction>, ReconcileError>)
        requires
            old(self).wf(),
        ensures
            performed(
                old(self)@.transacted(
                    now,
                    old(self)@.of_device(
                        *id,
                        old(self)@.desired(old(self)@.place(*id), target, now),
                    ),
                ),
                old(self)@,
                final(self)@,
                result,
            ),
            final(self).wf(),
    {
        if self.has_regressed(now) {
            return Err(ReconcileError::MonotonicClockRegressed);
        }
        let i: usize = match self.find(id) {
            Some(i) => i,
            None => return Err(ReconcileError::UnknownDevice(id.clone())),
        };
        let mut next = self.copied();
        match next.desired_changed(i, target, now) {
            Ok(actions) => {
                proof {
                    self@.desired_keeps(i as int, target, now);
                }
                self.commit(next, now);
                Ok(actions)
            },
            Err(error) => Err(error),
        }
    }

    fn observation_made(&mut self, i: usize, observed: DeviceTarget, now: MonotonicTime) -> (result:
        Result<Vec<ReconcileAction>, ReconcileError>)
        requires
            old(self).wf(),
            i < old(self).ids@.len(),
        ensures
            took(old(self)@.observed(i as int, observed, now), final(self)@, result),
    {
        let mut state = self.devices[i];
        assert(self@.devices[i as int] == state);
        let seen = merge_observation(state.observed, observed);
        state.observed = Some(seen);
        state.in_sync = targets_in_sync(state.desired, state.observed, state.color_policy);
        if state.in_sync {
            state.pending = None;
        }
        proof {
            self@.device_keeps(i as int, state);
        }
        self.set_device(i, state);
        if !state.in_sync {
            let none: Vec<ReconcileAction> = Vec::new();
            assert(none@ =~= Seq::<ReconcileAction>::empty());
            return Ok(none);
        }
        let mask = single(self.ids.len(), i);
        let mut canceled = self.cancel_work(&mask);
        canceled.set(i, false);
        self.stage_current_devices(&first_attempts(&canceled), now)
    }

    pub fn observe(&mut self, id: &DeviceId, observed: DeviceTarget, now: MonotonicTime) -> (result:
        Result<Vec<ReconcileAction>, ReconcileError>)
        requires
            old(self).wf(),
        ensures
            performed(
                old(self)@.transacted(
                    now,
                    old(self)@.of_device(
                        *id,
                        old(self)@.observed(old(self)@.place(*id), observed, now),
                    ),
                ),
                old(self)@,
                final(self)@,
                result,
            ),
            final(self).wf(),
    {
        if self.has_regressed(now) {
            return Err(ReconcileError::MonotonicClockRegressed);
        }
        let i: usize = match self.find(id) {
            Some(i) => i,
            None => return Err(ReconcileError::UnknownDevice(id.clone())),
        };
        let mut next = self.copied();
        match next.observation_made(i, observed, now) {
            Ok(actions) => {
                proof {
                    self@.observed_keeps(i as int, observed, now);
                }
                self.commit(next, now);
                Ok(actions)
            },
            Err(error) => Err(error),
        }
    }

    fn restart(&mut self, i: usize, now: MonotonicTime) -> (result: Result<
        Vec<ReconcileAction>,
        ReconcileError,
    >)
        requires
            old(self).wf(),
            i < old(self).ids@.len(),
        ensures
            took(old(self)@.restarted(i as int, now), final(self)@, result),
    {
        let mut state = self.devices[i];
        state.observed = None;
        state.pending = None;
        state.in_sync = state.desired.is_none();
        proof {
            self@.device_keeps(i as int, state);
        }
        self.set_device(i, state);
        let mask = single(self.ids.len(), i);
        let mut canceled = self.cancel_work(&mask);
        let mut actions: Vec<ReconcileAction> = Vec::new();
        assert(actions@ =~= Seq::<ReconcileAction>::empty());
        if self.transport != TransportStatus::Connected {
            return Ok(actions);
        }
        actions.push(ReconcileAction::RequestState(self.ids[i].clone()));
        canceled.set(i, true);
        match self.stage_current_devices(&first_attempts(&canceled), now) {
            Ok(more) => {
                extend(&mut actions, more);
                assert(actions@ =~= seq![ReconcileAction::RequestState(old(self)@.ids[i as int])]
                    + more@);
                Ok(actions)
            },
            Err(error) => Err(error),
        }
    }

    pub fn device_restarted(&mut self, id: &DeviceId, now: MonotonicTime) -> (result: Result<
        Vec<ReconcileAction>,
        ReconcileError,
    >)
        requires
            old(self).wf(),
        ensures
            performed(
                old(self)@.transacted(
                    now,
                    old(self)@.of_device(*id, old(self)@.restarted(old(self)@.place(*id), now)),
                ),
                old(self)@,
                final(self)@,
                result,
            ),
            final(self).wf(),
    {
        if self.has_regressed(now) {
            return Err(ReconcileError::MonotonicClockRegressed);
        }
        let i: usize = match self.find(id) {
            Some(i) => i,
            None => return Err(ReconcileError::UnknownDevice(id.clone())),
        };
        let mut next = self.copied();
        match next.restart(i, now) {
            Ok(actions) => {
                proof {
                    self@.restarted_keeps(i as int, now);
                }
                self.commit(next, now);
                Ok(actions)
            },
            Err(error) => Err(error),
        }
    }
}

impl Reconciler {
    /// Records `target` for group `g` and its members; tells which members it
    /// changes.
    fn record_group_target(&mut self, g: usize, target: &LightTarget) -> (changed: Vec<bool>)
        requires
            old(self).wf(),
            g < old(self).groups@.len(),
        ensures
            final(self)@ == old(self)@.with_group_target(g as int, *target),
            changed@ == old(self)@.changed_members(g as int, *target),
    {
        let mut group = self.groups[g];
        group.logical_desired = Some(*target);
        group.command_target = Some(group.capabilities.degrade(target));
        let members = self.members(g);
        let mut changed: Vec<bool> = Vec::new();
        let ghost expected = self@.changed_members(g as int, *target);
        let ghost goal = self@.with_group_target(g as int, *target);
        let mut i: usize = 0;
        while i < self.ids.len()
            invariant
                i <= self.ids@.len(),
                old(self).wf(),
                self.ids == old(self).ids,
                self.devices@.len() == self.ids@.len(),
                self.group_of == old(self).group_of,
                self.group_ids == old(self).group_ids,
                self.groups == old(self).groups,
                self.transport == old(self).transport,
                self.bridge == old(self).bridge,
                self.retry_policy == old(self).retry_policy,
                self.next_dispatch_token == old(self).next_dispatch_token,
                self.staged_dispatches == old(self).staged_dispatches,
                self.next_deferred_sequence == old(self).next_deferred_sequence,
                self.deferred_dispatches == old(self).deferred_dispatches,
                self.last_time == old(self).last_time,
                members@ == old(self)@.members(g as int),
                expected == old(self)@.changed_members(g as int, *target),
                goal == old(self)@.with_group_target(g as int, *target),
                changed@ == expected.take(i as int),
                forall|j: int| 0 <= j < i ==> #[trigger] self.devices@[j] == goal.devices[j],
                forall|j: int|
                    i <= j < self.devices@.len() ==> #[trigger] self.devices@[j] == old(
                        self,
                    ).devices@[j],
            decreases self.ids@.len() - i,
        {
            let state = self.devices[i];
            let wanted = state.capabilities.degrade(target);
            let differs = members[i] && !state.has_desired(&wanted);
            if differs {
                self.devices.set(i, state.with_desired(wanted));
            }
            changed.push(differs);
            assert(changed@ =~= expected.take(i + 1));
            i = i + 1;
        }
        assert(changed@ =~= expected);
        self.groups.set(g, group);
        proof {
            assert(self@.devices =~= goal.devices);
            assert(self@.groups =~= goal.groups);
            assert(self@ =~= goal);
        }
        changed
    }

    fn set_group_desired_inner(&mut self, g: usize, target: LightTarget, now: MonotonicTime) -> (result:
        Result<Vec<ReconcileAction>, ReconcileError>)
        requires
            old(self).wf(),
            g < old(self).groups@.len(),
        ensures
            took(old(self)@.group_desired(g as int, target, now), final(self)@, result),
    {
        let group = self.groups[g];
        if let Some(desired) = group.logical_desired {
            if desired.equals(&target) {
                let none: Vec<ReconcileAction> = Vec::new();
                assert(none@ =~= Seq::<ReconcileAction>::empty());
                return Ok(none);
            }
        }
        let wanted = group.capabilities.degrade(&target);
        let unchanged = match group.command_target {
            Some(current) => current.equals(&wanted),
            None => false,
        };
        proof {
            self@.with_group_target_keeps(g as int, target);
        }
        let changed = self.record_group_target(g, &target);
        let canceled = self.cancel_work(&changed);
        let mut combined: Vec<bool> = Vec::new();
        let mut some: bool = false;
        let mut i: usize = 0;
        while i < canceled.len()
            invariant
                i <= canceled@.len(),
                changed@.len() == canceled@.len(),
                combined@ == crate::dispatch::either(canceled@, changed@).take(i as int),
                some == (exists|j: int| 0 <= j < i && #[trigger] canceled@[j]),
            decreases canceled@.len() - i,
        {
            if canceled[i] {
                some = true;
                assert(canceled@[i as int]);
            }
            combined.push(canceled[i] || changed[i]);
            assert(combined@ =~= crate::dispatch::either(canceled@, changed@).take(i + 1));
            i = i + 1;
        }
        assert(combined@ =~= crate::dispatch::either(canceled@, changed@));
        if some {
            return self.stage_current_devices(&first_attempts(&combined), now);
        }
        self.command_group_with_fallbacks(g, wanted, !unchanged, &changed, now)
    }

    pub fn set_group_desired(&mut self, id: &EntityId, target: LightTarget, now: MonotonicTime) -> (result:
        Result<Vec<ReconcileAction>, ReconcileError>)
        requires
            old(self).wf(),
        ensures
            performed(
                old(self)@.transacted(
                    now,
                    old(self)@.of_group(
                        *id,
                        old(self)@.group_desired(old(self)@.group_place(*id), target, now),
                    ),
                ),
                old(self)@,
                final(self)@,
                result,
            ),
            final(self).wf(),
    {
        if self.has_regressed(now) {
            return Err(ReconcileError::MonotonicClockRegressed);
        }
        let g: usize = match self.find_group(id) {
            Some(g) => g,
            None => return Err(ReconcileError::UnknownGroup(id.clone())),
        };
        let mut next = self.copied();
        match next.set_group_desired_inner(g, target, now) {
            Ok(actions) => {
                proof {
                    self@.group_desired_keeps(g as int, target, now);
                }
                self.commit(next, now);
                Ok(actions)
            },
            Err(error) => Err(error),
        }
    }

    fn clear_group(&mut self, g: usize, now: MonotonicTime) -> (result: Result<
        Vec<ReconcileAction>,
        ReconcileError,
    >)
        requires
            old(self).wf(),
            g < old(self).groups@.len(),
        ensures
            took(old(self)@.group_cleared(g as int, now), final(self)@, result),
    {
        let mut group = self.groups[g];
        if group.logical_desired.is_none() && group.command_target.is_none() {
            let none: Vec<ReconcileAction> = Vec::new();
            assert(none@ =~= Seq::<ReconcileAction>::empty());
            return Ok(none);
        }
        group.logical_desired = None;
        group.command_target = None;
        let members = self.members(g);
        let ghost next = Model { groups: self@.groups.update(g as int, group), ..self@ };
        proof {
            self@.group_removal_keeps(g as int);
        }
        self.groups.set(g, group);
        assert(self@ =~= next);
        let canceled = self.cancel_work(&members);
        let mut combined: Vec<bool> = Vec::new();
        let mut i: usize = 0;
        while i < canceled.len()
            invariant
                i <= canceled@.len(),
                members@.len() == canceled@.len(),
                combined@ == crate::dispatch::either(canceled@, members@).take(i as int),
            decreases canceled@.len() - i,
        {
            combined.push(canceled[i] || members[i]);
            assert(combined@ =~= crate::dispatch::either(canceled@, members@).take(i + 1));
            i = i + 1;
        }
        assert(combined@ =~= crate::dispatch::either(canceled@, members@));
        self.stage_current_devices(&first_attempts(&combined), now)
    }

    /// Stops native-group ownership without erasing member desired state.
    ///
    /// Runtime uses this before per-device fallback whenever group members do
    /// not share one physical owner or their effective targets diverge.
    pub fn clear_group_desired(&mut self, id: &EntityId, now: MonotonicTime) -> (result: Result<
        Vec<ReconcileAction>,
        ReconcileError,
    >)
        requires
            old(self).wf(),
        ensures
            performed(
                old(self)@.transacted(
                    now,
                    old(self)@.of_group(
                        *id,
                        old(self)@.group_cleared(old(self)@.group_place(*id), now),
                    ),
                ),
                old(self)@,
                final(self)@,
                result,
            ),
            final(self).wf(),
    {
        if self.has_regressed(now) {
            return Err(ReconcileError::MonotonicClockRegressed);
        }
        let g: usize = match self.find_group(id) {
            Some(g) => g,
            None => return Err(ReconcileError::UnknownGroup(id.clone())),
        };
        let mut next = self.copied();
        match next.clear_group(g, now) {
            Ok(actions) => {
                proof {
                    self@.group_cleared_keeps(g as int, now);
                }
                self.commit(next, now);
                Ok(actions)
            },
            Err(error) => Err(error),
        }
    }

    fn find_token(&self, token: DispatchToken) -> (position: Option<usize>)
        ensures
            match position {
                Some(k) => self@.has_token(token) && k < self.staged_dispatches@.len()
                    && crate::dispatch::token_place(self@.staged, token) == k,
                None => !self@.has_token(token),
            },
    {
        let mut k: usize = 0;
        proof {
            Model::token_is_placed(self@.staged, token);
        }
        while k < self.staged_dispatches.len()
            invariant
                k <= self.staged_dispatches@.len(),
                k <= crate::dispatch::token_place(self@.staged, token)
                    <= self.staged_dispatches@.len(),
                crate::dispatch::token_place(self@.staged, token)
                    < self.staged_dispatches@.len() ==> self@.staged[crate::dispatch::token_place(
                    self@.staged,
                    token,
                )].token == token.value,
                forall|j: int|
                    0 <= j < crate::dispatch::token_place(self@.staged, token) ==> (
                    #[trigger] self@.staged[j]).token != token.value,
            decreases self.staged_dispatches@.len() - k,
        {
            assert(self@.staged[k as int].token == self.staged_dispatches@[k as int].token);
            if self.staged_dispatches[k].token == token.value {
                return Some(k);
            }
            k = k + 1;
        }
        None
    }

    /// Returns whether a staged batch still exists for diagnostics/tests.
    ///
    /// This observation does not authorize an enqueue: executors must use
    /// `claim_next_operation` so token validation and the enqueue lease cannot
    /// race. A broker disconnect, newer desired state, timeout sweep, failure,
    /// or permanent cancellation invalidates the token.
    pub fn is_dispatch_token_valid(&self, token: DispatchToken) -> (result: bool)
        ensures
            result == self@.has_token(token),
    {
        self.find_token(token).is_some()
    }

    /// Replaces plan and deadline of a staged batch.
    fn set_plan(
        &mut self,
        k: usize,
        plan: RegisteredDispatchPlan,
        acceptance_deadline: MonotonicTime,
    )
        requires
            k < old(self).staged_dispatches@.len(),
        ensures
            final(self)@ == old(self)@.with_staged(
                k as int,
                StagedView {
                    plan: Some(plan),
                    acceptance_deadline,
                    ..old(self)@.staged[k as int]
                },
            ),
    {
        let mut entry = self.staged_dispatches.remove(k);
        entry.plan = Some(plan);
        entry.acceptance_deadline = acceptance_deadline;
        self.staged_dispatches.insert(k, entry);
        proof {
            let goal = old(self)@.with_staged(
                k as int,
                StagedView {
                    plan: Some(plan),
                    acceptance_deadline,
                    ..old(self)@.staged[k as int]
                },
            );
            assert(self@.staged =~= goal.staged);
            assert(self@ =~= goal);
        }
    }

    /// Takes a staged batch out.
    fn take_staged(&mut self, k: usize) -> (entry: StagedDispatch)
        requires
            k < old(self).staged_dispatches@.len(),
        ensures
            entry@ == old(self)@.staged[k as int],
            final(self)@ == (Model { staged: old(self)@.staged.remove(k as int), ..old(self)@ }),
    {
        let entry = self.staged_dispatches.remove(k);
        proof {
            assert(self@.staged =~= old(self)@.staged.remove(k as int));
            assert(self@ =~= Model { staged: old(self)@.staged.remove(k as int), ..old(self)@ });
        }
        entry
    }

    /// Registers the execution shape of one adapter plan before any of its
    /// publications are enqueued.
    ///
    /// Staging installs an initial deadline using its transaction time and the
    /// acceptance margin. Registration atomically extends it, when necessary,
    /// to the plan epoch plus its largest relative delay and the same margin.
    /// A token that a newer desired state already invalidated returns `Stale`
    /// rather than turning a normal actor race into a daemon error.
    pub fn register_dispatch_plan(
        &mut self,
        token: DispatchToken,
        epoch: MonotonicTime,
        operation_count: usize,
        max_offset_ms: u64,
    ) -> (result: Result<DispatchRegistrationOutcome, ReconcileError>)
        requires
            old(self).wf(),
        ensures
            returned(
                if old(self)@.has_token(token) {
                    old(self)@.completed(
                        epoch,
                        old(self)@.registered(token, epoch, operation_count, max_offset_ms),
                    )
                } else {
                    Ok((old(self)@, DispatchRegistrationOutcome::Stale))
                },
                old(self)@,
                final(self)@,
                result,
            ),
            final(self).wf(),
    {
        let k: usize = match self.find_token(token) {
            Some(k) => k,
            None => return Ok(DispatchRegistrationOutcome::Stale),
        };
        if self.has_regressed(epoch) {
            return Err(ReconcileError::MonotonicClockRegressed);
        }
        if operation_count == 0 {
            return Err(ReconcileError::InvalidDispatchOperationCount);
        }
        let deadline = match self.retry_policy.dispatch_acceptance_deadline(epoch, max_offset_ms) {
            Ok(deadline) => deadline,
            Err(error) => return Err(error),
        };
        proof {
            self@.registered_keeps(token, epoch, operation_count, max_offset_ms);
        }
        let current = self.staged_dispatches[k].acceptance_deadline;
        assert(self@.staged[k as int] == self.staged_dispatches@[k as int]@);
        let outcome = match self.staged_dispatches[k].plan {
            None => {
                let acceptance_deadline = if current.is_before(deadline) {
                    deadline
                } else {
                    current
                };
                let plan = RegisteredDispatchPlan {
                    epoch,
                    operation_count,
                    max_offset_ms,
                    next_operation_index: 0,
                };
                self.set_plan(k, plan, acceptance_deadline);
                DispatchRegistrationOutcome::Registered
            },
            Some(plan) => {
                if !(plan.epoch.value.equals(epoch.value) && plan.operation_count
                    == operation_count && plan.max_offset_ms == max_offset_ms) {
                    return Err(ReconcileError::DispatchPlanMismatch(token));
                }
                DispatchRegistrationOutcome::AlreadyRegistered
            },
        };
        proof {
            let next = old(self)@.registered(
                token,
                epoch,
                operation_count,
                max_offset_ms,
            )->Ok_0.0;
            assert(self@ =~= next);
            next.time_keeps(Some(epoch));
        }
        self.last_time = Some(epoch);
        assert(self@ =~= Model {
            last_time: Some(epoch),
            ..old(self)@.registered(token, epoch, operation_count, max_offset_ms)->Ok_0.0
        });
        Ok(outcome)
    }

    fn validate_claimed_operation(&self, token: DispatchToken, operation_index: usize) -> (result:
        Result<usize, ReconcileError>)
        ensures
            match self@.claim_fault(token, operation_index) {
                Some(error) => result == Err::<usize, ReconcileError>(error),
                None => result matches Ok(k) && k < self.staged_dispatches@.len() && k
                    == crate::dispatch::token_place(self@.staged, token),
            },
    {
        let k: usize = match self.find_token(token) {
            Some(k) => k,
            None => return Err(ReconcileError::UnknownDispatchToken(token)),
        };
        assert(self@.staged[k as int] == self.staged_dispatches@[k as int]@);
        let plan = match self.staged_dispatches[k].plan {
            Some(plan) => plan,
            None => return Err(ReconcileError::UnregisteredDispatchPlan(token)),
        };
        if plan.next_operation_index != operation_index {
            return Err(
                ReconcileError::UnexpectedDispatchOperation {
                    expected: plan.next_operation_index,
                    actual: operation_index,
                    operation_count: plan.operation_count,
                },
            );
        }
        Ok(k)
    }

    /// Marks the devices of an accepted batch as commanded.
    fn record_sent(&mut self, affected: &Vec<Option<StagedAttempt>>, now: MonotonicTime)
        requires
            affected@.len() == old(self).devices@.len(),
        ensures
            final(self)@ == (Model { devices: old(self)@.sent(affected@, now), ..old(self)@ }),
    {
        let ghost goal = self@.sent(affected@, now);
        let mut i: usize = 0;
        while i < self.devices.len()
            invariant
                i <= self.devices@.len(),
                affected@.len() == self.devices@.len(),
                self.devices@.len() == old(self).devices@.len(),
                goal == old(self)@.sent(affected@, now),
                self.ids == old(self).ids,
                self.group_of == old(self).group_of,
                self.group_ids == old(self).group_ids,
                self.groups == old(self).groups,
                self.transport == old(self).transport,
                self.bridge == old(self).bridge,
                self.retry_policy == old(self).retry_policy,
                self.next_dispatch_token == old(self).next_dispatch_token,
                self.staged_dispatches == old(self).staged_dispatches,
                self.next_deferred_sequence == old(self).next_deferred_sequence,
                self.deferred_dispatches == old(self).deferred_dispatches,
                self.last_time == old(self).last_time,
                forall|j: int| 0 <= j < i ==> #[trigger] self.devices@[j] == goal[j],
                forall|j: int|
                    i <= j < self.devices@.len() ==> #[trigger] self.devices@[j] == old(
                        self,
                    ).devices@[j],
            decreases self.devices@.len() - i,
        {
            if let Some(attempt) = affected[i] {
                let mut state = self.devices[i];
                let deadline = self.retry_policy.correlation_deadline(
                    now,
                    attempt.target.transition_ms,
                );
                state.last_command = Some(attempt.target);
                state.in_sync = state.is_settled();
                state.pending = if state.in_sync {
                    None
                } else {
                    Some(
                        PendingCommand {
                            target: attempt.target,
                            deadline,
                            attempts: attempt.attempts,
                        },
                    )
                };
                self.devices.set(i, state);
            }
            i = i + 1;
        }
        proof {
            assert(self@.devices =~= goal);
            assert(self@ =~= Model { devices: old(self)@.sent(affected@, now), ..old(self)@ });
        }
    }

    /// Gives the batch at position `k` up: its devices wait for nothing any more.
    fn give_up(&mut self, k: usize)
        requires
            old(self).wf(),
            k < old(self).staged_dispatches@.len(),
        ensures
            final(self)@ == old(self)@.without_batch(k as int),
    {
        proof {
            assert(self@.staged[k as int] == self.staged_dispatches@[k as int]@);
            assert(self@.staged_entry_wf(self@.staged[k as int]));
        }
        let entry = self.take_staged(k);
        let ghost taken = self@;
        let ghost goal = old(self)@.unawaited(entry.affected@);
        let mut i: usize = 0;
        while i < self.devices.len()
            invariant
                i <= self.devices@.len(),
                entry.affected@.len() == self.devices@.len(),
                taken.devices == old(self).devices@,
                goal == old(self)@.unawaited(entry.affected@),
                self.devices@.len() == taken.devices.len(),
                self@ == (Model { devices: self.devices@, ..taken }),
                forall|j: int| 0 <= j < i ==> #[trigger] self.devices@[j] == goal[j],
                forall|j: int|
                    i <= j < self.devices@.len() ==> #[trigger] self.devices@[j]
                        == taken.devices[j],
            decreases self.devices@.len() - i,
        {
            if entry.affected[i].is_some() {
                let mut state = self.devices[i];
                state.pending = None;
                self.devices.set(i, state);
            }
            i = i + 1;
        }
        assert(self@.devices =~= goal);
        assert(self@ =~= old(self)@.without_batch(k as int));
    }

    fn accept_dispatch_operation(
        &mut self,
        token: DispatchToken,
        operation_index: usize,
        now: MonotonicTime,
    ) -> (result: Result<DispatchAcceptance, ReconcileError>)
        requires
            old(self).wf(),
        ensures
            returned(
                old(self)@.completed(now, old(self)@.accepted(token, operation_index, now)),
                old(self)@,
                final(self)@,
                result,
            ),
            final(self).wf(),
    {
        if self.has_regressed(now) {
            return Err(ReconcileError::MonotonicClockRegressed);
        }
        let k: usize = match self.validate_claimed_operation(token, operation_index) {
            Ok(k) => k,
            Err(error) => return Err(error),
        };
        proof {
            self@.accepted_keeps(token, operation_index, now);
            assert(self@.staged[k as int] == self.staged_dispatches@[k as int]@);
            assert(self@.staged_entry_wf(self@.staged[k as int]));
        }
        let ghost goal = self@.accepted(token, operation_index, now)->Ok_0.0;
        let mut outcome = DispatchAcceptance::BatchAccepted;
        let acceptance_deadline = self.staged_dispatches[k].acceptance_deadline;
        if let Some(plan) = self.staged_dispatches[k].plan {
            let remaining: usize = plan.operation_count - plan.next_operation_index - 1;
            if remaining != 0 {
                let mut plan = plan;
                plan.next_operation_index = plan.next_operation_index + 1;
                self.set_plan(k, plan, acceptance_deadline);
                outcome = DispatchAcceptance::OperationAccepted { remaining };
            } else {
                let entry = self.take_staged(k);
                self.record_sent(&entry.affected, now);
            }
        }
        proof {
            assert(self@ =~= goal);
            goal.time_keeps(Some(now));
        }
        self.last_time = Some(now);
        assert(self@ =~= Model { last_time: Some(now), ..goal });
        Ok(outcome)
    }

    fn fail_dispatch_operation(
        &mut self,
        token: DispatchToken,
        operation_index: usize,
        now: MonotonicTime,
    ) -> (result: Result<(), ReconcileError>)
        requires
            old(self).wf(),
        ensures
            returned(
                old(self)@.completed(now, old(self)@.failed(token, operation_index, now)),
                old(self)@,
                final(self)@,
                result,
            ),
            final(self).wf(),
    {
        if self.has_regressed(now) {
            return Err(ReconcileError::MonotonicClockRegressed);
        }
        let k: usize = match self.validate_claimed_operation(token, operation_index) {
            Ok(k) => k,
            Err(error) => return Err(error),
        };
        proof {
            self@.failed_keeps(token, operation_index, now);
        }
        let mut next = self.copied();
        assert(next@.staged.len() == next.staged_dispatches@.len());
        assert(self@.staged.len() == self.staged_dispatches@.len());
        let entry = next.take_staged(k);
        match next.defer_attempts(attempts_of(&entry.affected), now) {
            Ok(()) => {
                self.commit(next, now);
                Ok(())
            },
            Err(error) => Err(error),
        }
    }

    fn cancel_claimed_dispatch(
        &mut self,
        token: DispatchToken,
        operation_index: usize,
        now: MonotonicTime,
    ) -> (result: Result<(), ReconcileError>)
        requires
            old(self).wf(),
        ensures
            returned(
                old(self)@.completed(now, old(self)@.abandoned(token, operation_index)),
                old(self)@,
                final(self)@,
                result,
            ),
            final(self).wf(),
    {
        if self.has_regressed(now) {
            return Err(ReconcileError::MonotonicClockRegressed);
        }
        let k: usize = match self.validate_claimed_operation(token, operation_index) {
            Ok(k) => k,
            Err(error) => return Err(error),
        };
        proof {
            self@.dropped_keeps(token);
            self@.dropped(token).0.time_keeps(Some(now));
        }
        self.give_up(k);
        self.last_time = Some(now);
        assert(self@ =~= Model { last_time: Some(now), ..old(self)@.dropped(token).0 });
        Ok(())
    }

    /// Permanently cancels a staged batch.
    ///
    /// Use this for adapter configuration/encoding errors that cannot become
    /// healthy through transport retry. The adapter error remains the fatal
    /// diagnostic; this call only makes the token unusable and prevents retry.
    pub fn cancel_dispatch(&mut self, token: DispatchToken, now: MonotonicTime) -> (result: Result<
        DispatchCancellation,
        ReconcileError,
    >)
        requires
            old(self).wf(),
        ensures
            returned(
                old(self)@.completed(now, Ok(old(self)@.dropped(token))),
                old(self)@,
                final(self)@,
                result,
            ),
            final(self).wf(),
    {
        if self.has_regressed(now) {
            return Err(ReconcileError::MonotonicClockRegressed);
        }
        proof {
            self@.dropped_keeps(token);
            self@.dropped(token).0.time_keeps(Some(now));
        }
        let outcome = match self.find_token(token) {
            Some(k) => {
                self.give_up(k);
                DispatchCancellation::Cancelled
            },
            None => DispatchCancellation::Stale,
        };
        self.last_time = Some(now);
        assert(self@ =~= Model { last_time: Some(now), ..old(self)@.dropped(token).0 });
        Ok(outcome)
    }
}

/// A failure while batches are swept ends the step.
proof fn lemma_swept_fail(start: Model, n: int, m: int, now: MonotonicTime)
    requires
        0 <= n <= m,
        start.swept(n, now) is Err,
    ensures
        start.swept(m, now) is Err,
        start.swept(m, now)->Err_0 == start.swept(n, now)->Err_0,
    decreases m - n,
{
    if n < m {
        lemma_swept_fail(start, n, m - 1, now);
    }
}

proof fn lemma_released_fail(start: Model, n: int, m: int, now: MonotonicTime)
    requires
        0 <= n <= m,
        start.released(n, now) is Err,
    ensures
        start.released(m, now) is Err,
        start.released(m, now)->Err_0 == start.released(n, now)->Err_0,
    decreases m - n,
{
    if n < m {
        lemma_released_fail(start, n, m - 1, now);
    }
}

proof fn lemma_retried_fail(start: Model, n: int, m: int, now: MonotonicTime)
    requires
        0 <= n <= m,
        start.retried(n, now) is Err,
    ensures
        start.retried(m, now) is Err,
        start.retried(m, now)->Err_0 == start.retried(n, now)->Err_0,
    decreases m - n,
{
    if n < m {
        lemma_retried_fail(start, n, m - 1, now);
    }
}

impl Reconciler {
    /// Defers the batches that were not accepted in time.
    fn sweep(&mut self, now: MonotonicTime) -> (result: Result<(), ReconcileError>)
        requires
            old(self).wf(),
        ensures
            match old(self)@.swept(old(self)@.staged.len() as int, now) {
                Ok(next) => result is Ok && final(self)@ == next && final(self).wf(),
                Err(error) => result == Err::<(), ReconcileError>(error),
            },
    {
        let ghost start = self@;
        let ghost total = start.staged.len() as int;
        let mut waiting: Vec<StagedDispatch> = Vec::new();
        std::mem::swap(&mut waiting, &mut self.staged_dispatches);
        let ghost mut seen = 0int;
        proof {
            assert(staged_views(waiting@) =~= start.staged);
            assert(start.staged.skip(0) =~= start.staged);
            assert(self@.staged =~= Seq::<StagedView>::empty());
            assert(self@ =~= start.swept(0, now)->Ok_0);
            start.swept_keeps(0, now);
        }
        while waiting.len() > 0
            invariant
                0 <= seen <= total,
                total == start.staged.len(),
                start == old(self)@,
                start.wf(),
                self.wf(),
                waiting@.len() == total - seen,
                staged_views(waiting@) == start.staged.skip(seen),
                start.swept(seen, now) == Ok::<Model, ReconcileError>(self@),
            decreases waiting@.len(),
        {
            let ghost views = staged_views(waiting@);
            let entry = waiting.remove(0);
            proof {
                assert(entry@ == views[0]);
                assert(views[0] == start.staged[seen]);
                assert(staged_views(waiting@) =~= views.remove(0));
                assert(views.remove(0) =~= start.staged.skip(seen + 1));
                start.swept_keeps(seen + 1, now);
            }
            let ghost here = self@;
            if now.has_reached(entry.acceptance_deadline) {
                match self.defer_attempts(attempts_of(&entry.affected), now) {
                    Ok(()) => {},
                    Err(error) => {
                        proof {
                            lemma_swept_fail(start, seen + 1, total, now);
                        }
                        return Err(error);
                    },
                }
            } else {
                self.staged_dispatches.push(entry);
                proof {
                    assert(self@.staged =~= here.staged.push(entry@));
                    assert(self@ =~= Model { staged: here.staged.push(entry@), ..here });
                }
            }
            proof {
                seen = seen + 1;
            }
        }
        Ok(())
    }

    /// Stages the deferred batches that are due.
    fn release(&mut self, now: MonotonicTime) -> (result: Result<
        Vec<ReconcileAction>,
        ReconcileError,
    >)
        requires
            old(self).wf(),
        ensures
            took(
                old(self)@.released(old(self)@.deferred.len() as int, now),
                final(self)@,
                result,
            ),
            result is Ok ==> final(self).wf(),
    {
        let ghost start = self@;
        let ghost total = start.deferred.len() as int;
        let mut waiting: Vec<DeferredDispatch> = Vec::new();
        std::mem::swap(&mut waiting, &mut self.deferred_dispatches);
        let mut actions: Vec<ReconcileAction> = Vec::new();
        let ghost mut seen = 0int;
        proof {
            assert(actions@ =~= Seq::<ReconcileAction>::empty());
            assert(deferred_views(waiting@) =~= start.deferred);
            assert(start.deferred.skip(0) =~= start.deferred);
            assert(self@.deferred =~= Seq::<DeferredView>::empty());
            assert(self@ =~= start.released(0, now)->Ok_0.0);
            start.released_keeps(0, now);
        }
        while waiting.len() > 0
            invariant
                0 <= seen <= total,
                total == start.deferred.len(),
                start == old(self)@,
                start.wf(),
                self.wf(),
                self@.same_base(start),
                waiting@.len() == total - seen,
                deferred_views(waiting@) == start.deferred.skip(seen),
                start.released(seen, now) == Ok::<
                    (Model, Seq<ReconcileAction>),
                    ReconcileError,
                >((self@, actions@)),
            decreases waiting@.len(),
        {
            let ghost views = deferred_views(waiting@);
            let entry = waiting.remove(0);
            proof {
                assert(entry@ == views[0]);
                assert(views[0] == start.deferred[seen]);
                assert(start.deferred_entry_wf(start.deferred[seen]));
                assert(deferred_views(waiting@) =~= views.remove(0));
                assert(views.remove(0) =~= start.deferred.skip(seen + 1));
                start.released_keeps(seen + 1, now);
            }
            let ghost here = self@;
            if now.has_reached(entry.retry_deadline) {
                match self.stage_current_devices(&entry.attempts, now) {
                    Ok(more) => extend(&mut actions, more),
                    Err(error) => {
                        proof {
                            lemma_released_fail(start, seen + 1, total, now);
                        }
                        return Err(error);
                    },
                }
            } else {
                self.deferred_dispatches.push(entry);
                proof {
                    assert(self@.deferred =~= here.deferred.push(entry@));
                    assert(self@ =~= Model { deferred: here.deferred.push(entry@), ..here });
                }
            }
            proof {
                seen = seen + 1;
            }
        }
        Ok(actions)
    }

    /// The devices that take part in a batch.
    fn scheduled(&self) -> (mask: Vec<bool>)
        requires
            self.wf(),
        ensures
            mask@.len() == self.ids@.len(),
            forall|i: int|
                0 <= i < mask@.len() ==> #[trigger] mask@[i] == self@.scheduled(i),
    {
        let mut mask = all_clear(self.ids.len());
        let mut k: usize = 0;
        while k < self.staged_dispatches.len()
            invariant
                k <= self.staged_dispatches@.len(),
                self.wf(),
                mask@.len() == self.ids@.len(),
                forall|i: int|
                    0 <= i < mask@.len() ==> #[trigger] mask@[i] == (exists|j: int|
                        0 <= j < k && (#[trigger] self@.staged[j]).affected[i] is Some),
            decreases self.staged_dispatches@.len() - k,
        {
            let ghost before = mask@;
            assert(self@.staged[k as int] == self.staged_dispatches@[k as int]@);
            assert(self@.staged_entry_wf(self@.staged[k as int]));
            mark(&mut mask, &self.staged_dispatches[k].affected);
            proof {
                assert forall|i: int| 0 <= i < mask@.len() implies #[trigger] mask@[i] == (
                exists|j: int|
                    0 <= j < k + 1 && (#[trigger] self@.staged[j]).affected[i] is Some) by {
                    if before[i] {
                        let j = choose|j: int|
                            0 <= j < k && (#[trigger] self@.staged[j]).affected[i] is Some;
                        assert(0 <= j < k + 1);
                    }
                    if mask@[i] && !before[i] {
                        assert(self@.staged[k as int].affected[i] is Some);
                    }
                }
            }
            k = k + 1;
        }
        let ghost staged = mask@;
        let mut l: usize = 0;
        while l < self.deferred_dispatches.len()
            invariant
                l <= self.deferred_dispatches@.len(),
                self.wf(),
                mask@.len() == self.ids@.len(),
                staged.len() == mask@.len(),
                forall|i: int|
                    0 <= i < mask@.len() ==> #[trigger] mask@[i] == (staged[i] || exists|j: int|
                        0 <= j < l && (#[trigger] self@.deferred[j]).attempts[i] is Some),
            decreases self.deferred_dispatches@.len() - l,
        {
            let ghost before = mask@;
            assert(self@.deferred[l as int] == self.deferred_dispatches@[l as int]@);
            assert(self@.deferred_entry_wf(self@.deferred[l as int]));
            mark(&mut mask, &self.deferred_dispatches[l].attempts);
            proof {
                assert forall|i: int| 0 <= i < mask@.len() implies #[trigger] mask@[i] == (
                staged[i] || exists|j: int|
                    0 <= j < l + 1 && (#[trigger] self@.deferred[j]).attempts[i] is Some) by {
                    if before[i] && !staged[i] {
                        let j = choose|j: int|
                            0 <= j < l && (#[trigger] self@.deferred[j]).attempts[i] is Some;
                        assert(0 <= j < l + 1);
                    }
                    if mask@[i] && !before[i] {
                        assert(self@.deferred[l as int].attempts[i] is Some);
                    }
                }
            }
            l = l + 1;
        }
        mask
    }

    /// Sends overdue commands again.
    fn retry_pending(&mut self, now: MonotonicTime) -> (result: Result<
        Vec<ReconcileAction>,
        ReconcileError,
    >)
        requires
            old(self).wf(),
        ensures
            took(old(self)@.retried(old(self)@.ids.len() as int, now), final(self)@, result),
    {
        let ghost start = self@;
        let scheduled = self.scheduled();
        let n: usize = self.ids.len();
        let mut actions: Vec<ReconcileAction> = Vec::new();
        assert(actions@ =~= Seq::<ReconcileAction>::empty());
        let mut i: usize = 0;
        while i < n
            invariant
                i <= n,
                n == start.ids.len(),
                start == old(self)@,
                start.wf(),
                self.wf(),
                self@.same_base(start),
                scheduled@.len() == n,
                forall|j: int|
                    0 <= j < n ==> #[trigger] scheduled@[j] == start.scheduled(j),
                start.retried(i as int, now) == Ok::<
                    (Model, Seq<ReconcileAction>),
                    ReconcileError,
                >((self@, actions@)),
            decreases n - i,
        {
            let state = self.devices[i];
            proof {
                assert(start.devices[i as int] == state);
                start.retried_keeps(i + 1, now);
            }
            if let Some(pending) = state.pending {
                if now.has_reached(pending.deadline) && state.availability == Availability::Online
                    && pending.attempts < self.retry_policy.max_attempts && !scheduled[i] {
                    assert(start.overdue(i as int, now));
                    match self.stage_one(i, pending.target, pending.attempts + 1, now) {
                        Ok(more) => extend(&mut actions, more),
                        Err(error) => {
                            proof {
                                lemma_retried_fail(start, i + 1, n as int, now);
                            }
                            return Err(error);
                        },
                    }
                }
            }
            i = i + 1;
        }
        Ok(actions)
    }

    fn retry_due_inner(&mut self, now: MonotonicTime) -> (result: Result<
        Vec<ReconcileAction>,
        ReconcileError,
    >)
        requires
            old(self).wf(),
        ensures
            took(old(self)@.due(now), final(self)@, result),
    {
        if let Err(error) = self.sweep(now) {
            return Err(error);
        }
        if !self.can_publish() {
            let none: Vec<ReconcileAction> = Vec::new();
            assert(none@ =~= Seq::<ReconcileAction>::empty());
            return Ok(none);
        }
        let mut actions = match self.release(now) {
            Ok(actions) => actions,
            Err(error) => return Err(error),
        };
        match self.retry_pending(now) {
            Ok(more) => {
                extend(&mut actions, more);
                Ok(actions)
            },
            Err(error) => Err(error),
        }
    }

    /// Sweeps dispatch-acceptance timeouts, releases local-failure backoff, and
    /// emits due on-wire retries. Call this from the executor's monotonic timer.
    pub fn retry_due(&mut self, now: MonotonicTime) -> (result: Result<
        Vec<ReconcileAction>,
        ReconcileError,
    >)
        requires
            old(self).wf(),
        ensures
            performed(
                old(self)@.transacted(now, old(self)@.due(now)),
                old(self)@,
                final(self)@,
                result,
            ),
            final(self).wf(),
    {
        if self.has_regressed(now) {
            return Err(ReconcileError::MonotonicClockRegressed);
        }
        let mut next = self.copied();
        match next.retry_due_inner(now) {
            Ok(actions) => {
                proof {
                    self@.due_keeps(now);
                }
                self.commit(next, now);
                Ok(actions)
            },
            Err(error) => Err(error),
        }
    }
}

/// The earlier of two moments.
pub open spec fn earlier(a: Option<MonotonicTime>, b: MonotonicTime) -> MonotonicTime {
    match a {
        Some(a) => if b.value.less(a.value) {
            b
        } else {
            a
        },
        None => b,
    }
}

fn sooner(a: Option<MonotonicTime>, b: MonotonicTime) -> (result: Option<MonotonicTime>)
    ensures
        result == Some(earlier(a, b)),
{
    match a {
        Some(a) => if b.is_before(a) {
            Some(b)
        } else {
            Some(a)
        },
        None => Some(b),
    }
}

/// The earliest of the first `n` acceptance deadlines and `first`.
pub open spec fn earliest_staged(staged: Seq<StagedView>, n: int) -> Option<MonotonicTime>
    decreases n,
{
    if n <= 0 {
        None
    } else {
        Some(earlier(earliest_staged(staged, n - 1), staged[n - 1].acceptance_deadline))
    }
}

/// The earliest of the first `n` retry deadlines and those before them.
pub open spec fn earliest_deferred(
    first: Option<MonotonicTime>,
    deferred: Seq<DeferredView>,
    n: int,
) -> Option<MonotonicTime>
    decreases n,
{
    if n <= 0 {
        first
    } else {
        Some(earlier(earliest_deferred(first, deferred, n - 1), deferred[n - 1].retry_deadline))
    }
}

/// The earliest deadline of the first `n` devices and those before them.
pub open spec fn earliest_pending(first: Option<MonotonicTime>, model: Model, n: int) -> Option<
    MonotonicTime,
>
    decreases n,
{
    if n <= 0 {
        first
    } else {
        let rest = earliest_pending(first, model, n - 1);
        match model.devices[n - 1].pending {
            Some(pending) => if pending.attempts < model.policy.max_attempts {
                Some(earlier(rest, pending.deadline))
            } else {
                rest
            },
            None => rest,
        }
    }
}

/// When the reconciler next has something to do.
pub open spec fn earliest(model: Model) -> Option<MonotonicTime> {
    earliest_pending(
        earliest_deferred(
            earliest_staged(model.staged, model.staged.len() as int),
            model.deferred,
            model.deferred.len() as int,
        ),
        model,
        model.devices.len() as int,
    )
}

proof fn lemma_earliest_staged(staged: Seq<StagedView>, n: int)
    requires
        n <= staged.len(),
    ensures
        n > 0 ==> earliest_staged(staged, n) is Some,
        forall|k: int|
            0 <= k < n ==> !(#[trigger] staged[k]).acceptance_deadline.value.less(
                earliest_staged(staged, n)->0.value,
            ),
    decreases n,
{
    if n > 0 {
        lemma_earliest_staged(staged, n - 1);
    }
}

proof fn lemma_earliest_deferred(
    first: Option<MonotonicTime>,
    deferred: Seq<DeferredView>,
    n: int,
)
    requires
        n <= deferred.len(),
    ensures
        first is Some || n > 0 ==> earliest_deferred(first, deferred, n) is Some,
        first is Some ==> !first->0.value.less(earliest_deferred(first, deferred, n)->0.value),
        first is Some && n <= 0 ==> earliest_deferred(first, deferred, n) == first,
        forall|t: MonotonicTime|
            first is Some && !#[trigger] t.value.less(first->0.value) ==> !t.value.less(
                earliest_deferred(first, deferred, n)->0.value,
            ),
        forall|k: int|
            0 <= k < n ==> !(#[trigger] deferred[k]).retry_deadline.value.less(
                earliest_deferred(first, deferred, n)->0.value,
            ),
    decreases n,
{
    if n > 0 {
        lemma_earliest_deferred(first, deferred, n - 1);
    }
}

proof fn lemma_earliest_pending(first: Option<MonotonicTime>, model: Model, n: int)
    requires
        n <= model.devices.len(),
    ensures
        first is Some ==> earliest_pending(first, model, n) is Some,
        forall|t: MonotonicTime|
            first is Some && !#[trigger] t.value.less(first->0.value) ==> !t.value.less(
                earliest_pending(first, model, n)->0.value,
            ),
        forall|i: int|
            0 <= i < n ==> ((#[trigger] model.devices[i]).pending matches Some(pending)
                ==> pending.attempts < model.policy.max_attempts ==> earliest_pending(
                first,
                model,
                n,
            ) is Some && !pending.deadline.value.less(
                earliest_pending(first, model, n)->0.value,
            )),
    decreases n,
{
    if n > 0 {
        lemma_earliest_pending(first, model, n - 1);
    }
}

/// No staged batch, deferred batch or command that may be sent again has a
/// deadline before the earliest one.
pub proof fn earliest_comes_first(model: Model)
    ensures
        forall|k: int|
            0 <= k < model.staged.len() ==> earliest(model) is Some && !(
            #[trigger] model.staged[k]).acceptance_deadline.value.less(earliest(model)->0.value),
        forall|k: int|
            0 <= k < model.deferred.len() ==> earliest(model) is Some && !(
            #[trigger] model.deferred[k]).retry_deadline.value.less(earliest(model)->0.value),
        forall|i: int|
            0 <= i < model.devices.len() ==> ((#[trigger] model.devices[i]).pending matches Some(
                pending,
            ) ==> pending.attempts < model.policy.max_attempts ==> earliest(model) is Some
                && !pending.deadline.value.less(earliest(model)->0.value)),
{
    let s = model.staged.len() as int;
    let d = model.deferred.len() as int;
    let staged = earliest_staged(model.staged, s);
    let deferred = earliest_deferred(staged, model.deferred, d);
    lemma_earliest_staged(model.staged, s);
    lemma_earliest_deferred(staged, model.deferred, d);
    lemma_earliest_pending(deferred, model, model.devices.len() as int);
}

impl Reconciler {
    pub fn next_deadline(&self) -> (deadline: Option<MonotonicTime>)
        ensures
            deadline == earliest(self@),
    {
        let mut best: Option<MonotonicTime> = None;
        let mut k: usize = 0;
        while k < self.staged_dispatches.len()
            invariant
                k <= self.staged_dispatches@.len(),
                best == earliest_staged(self@.staged, k as int),
            decreases self.staged_dispatches@.len() - k,
        {
            assert(self@.staged[k as int] == self.staged_dispatches@[k as int]@);
            best = sooner(best, self.staged_dispatches[k].acceptance_deadline);
            k = k + 1;
        }
        let ghost staged = best;
        let mut l: usize = 0;
        while l < self.deferred_dispatches.len()
            invariant
                l <= self.deferred_dispatches@.len(),
                best == earliest_deferred(staged, self@.deferred, l as int),
            decreases self.deferred_dispatches@.len() - l,
        {
            assert(self@.deferred[l as int] == self.deferred_dispatches@[l as int]@);
            best = sooner(best, self.deferred_dispatches[l].retry_deadline);
            l = l + 1;
        }
        let ghost deferred = best;
        let mut i: usize = 0;
        while i < self.devices.len()
            invariant
                i <= self.devices@.len(),
                best == earliest_pending(deferred, self@, i as int),
            decreases self.devices@.len() - i,
        {
            if let Some(pending) = self.devices[i].pending {
                if pending.attempts < self.retry_policy.max_attempts {
                    best = sooner(best, pending.deadline);
                }
            }
            i = i + 1;
        }
        best
    }
}

/// The first device, among the first `n`, whose name came before.
pub open spec fn device_fault(devices: Seq<DeviceDefinition>, n: int) -> Option<ReconcileError>
    decreases n,
{
    if n <= 0 {
        None
    } else if device_fault(devices, n - 1) is Some {
        device_fault(devices, n - 1)
    } else if device_defined(devices, n - 1, devices[n - 1].id) {
        Some(ReconcileError::DuplicateDevice(devices[n - 1].id))
    } else {
        None
    }
}

/// One of the first `n` definitions is that of `id`.
pub open spec fn device_defined(devices: Seq<DeviceDefinition>, n: int, id: DeviceId) -> bool {
    exists|i: int| 0 <= i < n && (#[trigger] devices[i]).id.text@ == id.text@
}

/// `id` is a member of one of the first `g` groups, or among the first `k`
/// members of group `g`.
pub open spec fn taken(groups: Seq<GroupDefinition>, g: int, k: int, id: DeviceId) -> bool {
    ||| exists|h: int|
        0 <= h < g && crate::reconcile::id_listed(
            (#[trigger] groups[h]).members@,
            groups[h].members@.len() as int,
            id,
        )
    ||| crate::reconcile::id_listed(groups[g].members@, k, id)
}

/// What is wrong with the first `k` members of group `g`.
pub open spec fn member_fault(
    devices: Seq<DeviceDefinition>,
    groups: Seq<GroupDefinition>,
    g: int,
    k: int,
) -> Option<ReconcileError>
    decreases k,
{
    if k <= 0 {
        None
    } else if member_fault(devices, groups, g, k - 1) is Some {
        member_fault(devices, groups, g, k - 1)
    } else {
        let member = groups[g].members@[k - 1];
        if !device_defined(devices, devices.len() as int, member) {
            Some(ReconcileError::UnknownDevice(member))
        } else if taken(groups, g, k - 1, member) {
            Some(ReconcileError::DeviceInMultipleGroups(member))
        } else {
            None
        }
    }
}

/// One of the first `n` definitions is that of `id`.
pub open spec fn group_defined(groups: Seq<GroupDefinition>, n: int, id: EntityId) -> bool {
    exists|h: int| 0 <= h < n && (#[trigger] groups[h]).id.text@ == id.text@
}

/// What is wrong with the first `n` groups.
pub open spec fn group_fault(
    devices: Seq<DeviceDefinition>,
    groups: Seq<GroupDefinition>,
    n: int,
) -> Option<ReconcileError>
    decreases n,
{
    if n <= 0 {
        None
    } else if group_fault(devices, groups, n - 1) is Some {
        group_fault(devices, groups, n - 1)
    } else {
        let fault = member_fault(
            devices,
            groups,
            n - 1,
            groups[n - 1].members@.len() as int,
        );
        if fault is Some {
            fault
        } else if group_defined(groups, n - 1, groups[n - 1].id) {
            Some(ReconcileError::DuplicateGroup(groups[n - 1].id))
        } else {
            None
        }
    }
}

/// The reconciler that holds exactly the given devices and groups and has not
/// worked yet.
pub open spec fn built(
    devices: Seq<DeviceDefinition>,
    groups: Seq<GroupDefinition>,
    policy: RetryPolicy,
    model: Model,
) -> bool {
    &&& model.ids.len() == devices.len()
    &&& model.group_ids.len() == groups.len()
    &&& forall|d: int|
        0 <= d < devices.len() ==> model.knows((#[trigger] devices[d]).id)
            && model.devices[model.place(devices[d].id)] == DeviceState::fresh(
            devices[d].capabilities,
            devices[d].color_policy,
        )
    &&& forall|g: int|
        0 <= g < groups.len() ==> model.knows_group((#[trigger] groups[g]).id)
            && model.groups[model.group_place(groups[g].id)] == (GroupState {
            capabilities: groups[g].capabilities,
            logical_desired: None,
            command_target: None,
        })
    &&& forall|i: int, g: int|
        0 <= i < model.ids.len() && 0 <= g < groups.len() ==> ((#[trigger] model.group_of[i]
            == Some(model.group_place((#[trigger] groups[g]).id) as usize))
            <==> crate::reconcile::id_listed(
            groups[g].members@,
            groups[g].members@.len() as int,
            model.ids[i],
        ))
    &&& model.transport is Disconnected
    &&& model.bridge is Unknown
    &&& model.policy == policy
    &&& model.next_token == 1
    &&& model.staged.len() == 0
    &&& model.next_sequence == 1
    &&& model.deferred.len() == 0
    &&& model.last_time is None
}

proof fn lemma_device_fault_stays(devices: Seq<DeviceDefinition>, n: int, m: int)
    requires
        n <= m,
        device_fault(devices, n) is Some,
    ensures
        device_fault(devices, m) == device_fault(devices, n),
    decreases m - n,
{
    if n < m {
        lemma_device_fault_stays(devices, n, m - 1);
    }
}

proof fn lemma_member_fault_stays(
    devices: Seq<DeviceDefinition>,
    groups: Seq<GroupDefinition>,
    g: int,
    k: int,
    m: int,
)
    requires
        k <= m,
        member_fault(devices, groups, g, k) is Some,
    ensures
        member_fault(devices, groups, g, m) == member_fault(devices, groups, g, k),
    decreases m - k,
{
    if k < m {
        lemma_member_fault_stays(devices, groups, g, k, m - 1);
    }
}

proof fn lemma_group_fault_stays(
    devices: Seq<DeviceDefinition>,
    groups: Seq<GroupDefinition>,
    n: int,
    m: int,
)
    requires
        n <= m,
        group_fault(devices, groups, n) is Some,
    ensures
        group_fault(devices, groups, m) == group_fault(devices, groups, n),
    decreases m - n,
{
    if n < m {
        lemma_group_fault_stays(devices, groups, n, m - 1);
    }
}

/// Without a fault all members are defined and none is taken.
proof fn lemma_members_sound(
    devices: Seq<DeviceDefinition>,
    groups: Seq<GroupDefinition>,
    g: int,
    k: int,
)
    requires
        k <= groups[g].members@.len(),
        member_fault(devices, groups, g, k) is None,
    ensures
        forall|j: int|
            0 <= j < k ==> device_defined(
                devices,
                devices.len() as int,
                #[trigger] groups[g].members@[j],
            ) && !taken(groups, g, j, groups[g].members@[j]),
    decreases k,
{
    if k > 0 {
        lemma_members_sound(devices, groups, g, k - 1);
    }
}

/// Without a fault all groups have names of their own and members of their
/// own, which are defined.
proof fn lemma_groups_sound(
    devices: Seq<DeviceDefinition>,
    groups: Seq<GroupDefinition>,
    n: int,
)
    requires
        n <= groups.len(),
        group_fault(devices, groups, n) is None,
    ensures
        forall|g: int|
            0 <= g < n ==> !group_defined(groups, g, (#[trigger] groups[g]).id) && member_fault(
                devices,
                groups,
                g,
                groups[g].members@.len() as int,
            ) is None,
    decreases n,
{
    if n > 0 {
        lemma_groups_sound(devices, groups, n - 1);
    }
}

fn is_taken(groups: &Vec<GroupDefinition>, g: usize, k: usize, id: &DeviceId) -> (result: bool)
    requires
        g < groups@.len(),
        k <= groups@[g as int].members@.len(),
    ensures
        result == taken(groups@, g as int, k as int, *id),
{
    let mut h: usize = 0;
    while h < g
        invariant
            h <= g < groups@.len(),
            forall|a: int|
                0 <= a < h ==> !crate::reconcile::id_listed(
                    (#[trigger] groups@[a]).members@,
                    groups@[a].members@.len() as int,
                    *id,
                ),
        decreases g - h,
    {
        if is_listed(&groups[h].members, groups[h].members.len(), id) {
            assert(crate::reconcile::id_listed(
                groups@[h as int].members@,
                groups@[h as int].members@.len() as int,
                *id,
            ));
            return true;
        }
        h = h + 1;
    }
    is_listed(&groups[g].members, k, id)
}

fn is_listed(ids: &Vec<DeviceId>, n: usize, id: &DeviceId) -> (result: bool)
    requires
        n <= ids@.len(),
    ensures
        result == crate::reconcile::id_listed(ids@, n as int, *id),
{
    let mut i: usize = 0;
    while i < n
        invariant
            i <= n <= ids@.len(),
            forall|j: int| 0 <= j < i ==> (#[trigger] ids@[j]).text@ != id.text@,
        decreases n - i,
    {
        if text::text_equals(ids[i].text.as_str(), id.text.as_str()) {
            assert(ids@[i as int].text@ == id.text@);
            return true;
        }
        i = i + 1;
    }
    false
}

fn is_device_defined(devices: &Vec<DeviceDefinition>, n: usize, id: &DeviceId) -> (result: bool)
    requires
        n <= devices@.len(),
    ensures
        result == device_defined(devices@, n as int, *id),
{
    let mut i: usize = 0;
    while i < n
        invariant
            i <= n <= devices@.len(),
            forall|j: int| 0 <= j < i ==> (#[trigger] devices@[j]).id.text@ != id.text@,
        decreases n - i,
    {
        if text::text_equals(devices[i].id.text.as_str(), id.text.as_str()) {
            assert(devices@[i as int].id.text@ == id.text@);
            return true;
        }
        i = i + 1;
    }
    false
}

fn is_group_defined(groups: &Vec<GroupDefinition>, n: usize, id: &EntityId) -> (result: bool)
    requires
        n <= groups@.len(),
    ensures
        result == group_defined(groups@, n as int, *id),
{
    let mut h: usize = 0;
    while h < n
        invariant
            h <= n <= groups@.len(),
            forall|j: int| 0 <= j < h ==> (#[trigger] groups@[j]).id.text@ != id.text@,
        decreases n - h,
    {
        if text::text_equals(groups[h].id.text.as_str(), id.text.as_str()) {
            assert(groups@[h as int].id.text@ == id.text@);
            return true;
        }
        h = h + 1;
    }
    false
}

/// Finds the first fault of the groups.
fn check_groups(devices: &Vec<DeviceDefinition>, groups: &Vec<GroupDefinition>) -> (fault: Option<
    ReconcileError,
>)
    ensures
        fault == group_fault(devices@, groups@, groups@.len() as int),
{
    let mut g: usize = 0;
    while g < groups.len()
        invariant
            g <= groups@.len(),
            group_fault(devices@, groups@, g as int) is None,
        decreases groups@.len() - g,
    {
        let mut k: usize = 0;
        while k < groups[g].members.len()
            invariant
                g < groups@.len(),
                k <= groups@[g as int].members@.len(),
                group_fault(devices@, groups@, g as int) is None,
                member_fault(devices@, groups@, g as int, k as int) is None,
            decreases groups@[g as int].members@.len() - k,
        {
            let member = groups[g].members[k].clone();
            let unknown = !is_device_defined(devices, devices.len(), &member);
            if unknown || is_taken(groups, g, k, &member) {
                proof {
                    lemma_member_fault_stays(
                        devices@,
                        groups@,
                        g as int,
                        k + 1,
                        groups@[g as int].members@.len() as int,
                    );
                    lemma_group_fault_stays(
                        devices@,
                        groups@,
                        g + 1,
                        groups@.len() as int,
                    );
                }
                return Some(
                    if unknown {
                        ReconcileError::UnknownDevice(member)
                    } else {
                        ReconcileError::DeviceInMultipleGroups(member)
                    },
                );
            }
            k = k + 1;
        }
        if is_group_defined(groups, g, &groups[g].id) {
            proof {
                lemma_group_fault_stays(devices@, groups@, g + 1, groups@.len() as int);
            }
            return Some(ReconcileError::DuplicateGroup(groups[g].id.clone()));
        }
        g = g + 1;
    }
    None
}

/// The definitions of the devices by name, unless a name occurs twice.
fn sorted_devices(devices: &Vec<DeviceDefinition>) -> (result: Result<
    SortedMap<DeviceId, usize>,
    ReconcileError,
>)
    ensures
        match result {
            Ok(map) => {
                &&& device_fault(devices@, devices@.len() as int) is None
                &&& map.pairs().len() == devices@.len()
                &&& crate::ordered::ascending(map.pairs())
                &&& forall|d: int|
                    0 <= d < devices@.len() ==> map@.contains_key(
                        (#[trigger] devices@[d]).id.key(),
                    ) && map@[devices@[d].id.key()] == d
                &&& forall|p: int|
                    0 <= p < map.pairs().len() ==> (#[trigger] map.pairs()[p]).1 < devices@.len()
                        && devices@[map.pairs()[p].1 as int].id.key() == map.pairs()[p].0.key()
            },
            Err(error) => device_fault(devices@, devices@.len() as int) == Some(error),
        },
{
    let mut map: SortedMap<DeviceId, usize> = SortedMap::new();
    let mut d: usize = 0;
    while d < devices.len()
        invariant
            d <= devices@.len(),
            device_fault(devices@, d as int) is None,
            map.pairs().len() == d,
            forall|e: int|
                0 <= e < d ==> map@.contains_key((#[trigger] devices@[e]).id.key())
                    && map@[devices@[e].id.key()] == e,
            forall|key: Seq<u8>| #[trigger]
                map@.contains_key(key) ==> map@[key] < d && devices@[map@[key] as int].id.key()
                    == key,
        decreases devices@.len() - d,
    {
        let id = devices[d].id.clone();
        let ghost before = map@;
        if is_device_defined(devices, d, &id) {
            proof {
                lemma_device_fault_stays(devices@, d + 1, devices@.len() as int);
            }
            return Err(ReconcileError::DuplicateDevice(id));
        }
        proof {
            if before.contains_key(id.key()) {
                let e = before[id.key()] as int;
                text::bytes_injective(devices@[e].id.text@, id.text@);
                assert(device_defined(devices@, d as int, id));
            }
            assert(!crate::ordered::has_key(map.pairs(), id.key()));
        }
        map.set(id, d);
        proof {
            assert forall|e: int| 0 <= e < d + 1 implies map@.contains_key(
                (#[trigger] devices@[e]).id.key(),
            ) && map@[devices@[e].id.key()] == e by {
                if e < d {
                    assert(before.contains_key(devices@[e].id.key()));
                    assert(devices@[e].id.key() != id.key());
                }
            }
        }
        d = d + 1;
    }
    let _ = map.len();
    proof {
        assert forall|p: int| 0 <= p < map.pairs().len() implies (
        #[trigger] map.pairs()[p]).1 < devices@.len() && devices@[map.pairs()[p].1 as int].id.key()
            == map.pairs()[p].0.key() by {
            crate::ordered::pair_is_mapped(map.pairs(), p);
            assert(map@.contains_key(map.pairs()[p].0.key()));
        }
    }
    Ok(map)
}

/// The definitions of the groups by name.
fn sorted_groups(groups: &Vec<GroupDefinition>) -> (map: SortedMap<EntityId, usize>)
    requires
        forall|g: int| 0 <= g < groups@.len() ==> !group_defined(
            groups@,
            g,
            (#[trigger] groups@[g]).id,
        ),
    ensures
        map.pairs().len() == groups@.len(),
        crate::ordered::ascending(map.pairs()),
        forall|g: int|
            0 <= g < groups@.len() ==> map@.contains_key((#[trigger] groups@[g]).id.key())
                && map@[groups@[g].id.key()] == g,
        forall|p: int|
            0 <= p < map.pairs().len() ==> (#[trigger] map.pairs()[p]).1 < groups@.len()
                && groups@[map.pairs()[p].1 as int].id.key() == map.pairs()[p].0.key(),
{
    let mut map: SortedMap<EntityId, usize> = SortedMap::new();
    let mut g: usize = 0;
    while g < groups.len()
        invariant
            g <= groups@.len(),
            forall|h: int| 0 <= h < groups@.len() ==> !group_defined(
                groups@,
                h,
                (#[trigger] groups@[h]).id,
            ),
            map.pairs().len() == g,
            forall|h: int|
                0 <= h < g ==> map@.contains_key((#[trigger] groups@[h]).id.key())
                    && map@[groups@[h].id.key()] == h,
            forall|key: Seq<u8>| #[trigger]
                map@.contains_key(key) ==> map@[key] < g && groups@[map@[key] as int].id.key()
                    == key,
        decreases groups@.len() - g,
    {
        let id = groups[g].id.clone();
        let ghost before = map@;
        proof {
            if before.contains_key(id.key()) {
                let h = before[id.key()] as int;
                text::bytes_injective(groups@[h].id.text@, id.text@);
                assert(group_defined(groups@, g as int, groups@[g as int].id));
            }
            assert(!crate::ordered::has_key(map.pairs(), id.key()));
        }
        map.set(id, g);
        proof {
            assert forall|h: int| 0 <= h < g + 1 implies map@.contains_key(
                (#[trigger] groups@[h]).id.key(),
            ) && map@[groups@[h].id.key()] == h by {
                if h < g {
                    assert(before.contains_key(groups@[h].id.key()));
                    assert(groups@[h].id.key() != id.key());
                }
            }
        }
        g = g + 1;
    }
    let _ = map.len();
    proof {
        assert forall|p: int| 0 <= p < map.pairs().len() implies (
        #[trigger] map.pairs()[p]).1 < groups@.len() && groups@[map.pairs()[p].1 as int].id.key()
            == map.pairs()[p].0.key() by {
            crate::ordered::pair_is_mapped(map.pairs(), p);
            assert(map@.contains_key(map.pairs()[p].0.key()));
        }
    }
    map
}

/// The groups of the devices: device `i` is in the group at place `p` if that
/// group's definition lists it.
fn group_places(
    ids: &Vec<DeviceId>,
    groups: &Vec<GroupDefinition>,
    order: &Vec<usize>,
) -> (group_of: Vec<Option<usize>>)
    requires
        order@.len() == groups@.len(),
        forall|p: int| 0 <= p < order@.len() ==> (#[trigger] order@[p]) < groups@.len(),
        forall|p: int, q: int|
            0 <= p < q < order@.len() ==> (#[trigger] order@[p]) != (#[trigger] order@[q]),
        forall|g: int, h: int, id: DeviceId|
            0 <= g < h < groups@.len() ==> !(#[trigger] members_listed(groups@, g, id) && (
            #[trigger] members_listed(groups@, h, id))),
    ensures
        group_of@.len() == ids@.len(),
        forall|i: int, p: int|
            0 <= i < ids@.len() && 0 <= p < order@.len() ==> ((#[trigger] group_of@[i] == Some(
                p as usize,
            )) <==> members_listed(groups@, (#[trigger] order@[p]) as int, ids@[i])),
        forall|i: int|
            0 <= i < ids@.len() ==> ((#[trigger] group_of@[i]) matches Some(p) ==> p
                < order@.len()),
{
    let mut group_of: Vec<Option<usize>> = Vec::new();
    let mut i: usize = 0;
    while i < ids.len()
        invariant
            i <= ids@.len(),
            group_of@.len() == i,
            order@.len() == groups@.len(),
            forall|p: int| 0 <= p < order@.len() ==> (#[trigger] order@[p]) < groups@.len(),
            forall|p: int, q: int|
                0 <= p < q < order@.len() ==> (#[trigger] order@[p]) != (#[trigger] order@[q]),
            forall|g: int, h: int, id: DeviceId|
                0 <= g < h < groups@.len() ==> !(#[trigger] members_listed(groups@, g, id) && (
                #[trigger] members_listed(groups@, h, id))),
            forall|j: int, p: int|
                0 <= j < i && 0 <= p < order@.len() ==> ((#[trigger] group_of@[j] == Some(
                    p as usize,
                )) <==> members_listed(groups@, (#[trigger] order@[p]) as int, ids@[j])),
            forall|j: int|
                0 <= j < i ==> ((#[trigger] group_of@[j]) matches Some(p) ==> p < order@.len()),
        decreases ids@.len() - i,
    {
        let mut found: Option<usize> = None;
        let mut p: usize = 0;
        while p < order.len()
            invariant
                i < ids@.len(),
                p <= order@.len(),
                order@.len() == groups@.len(),
                forall|q: int| 0 <= q < order@.len() ==> (#[trigger] order@[q]) < groups@.len(),
                forall|q: int, r: int|
                    0 <= q < r < order@.len() ==> (#[trigger] order@[q]) != (#[trigger] order@[r]),
                forall|g: int, h: int, id: DeviceId|
                    0 <= g < h < groups@.len() ==> !(#[trigger] members_listed(groups@, g, id) && (
                    #[trigger] members_listed(groups@, h, id))),
                forall|q: int|
                    0 <= q < p ==> ((found == Some(q as usize)) <==> members_listed(
                        groups@,
                        (#[trigger] order@[q]) as int,
                        ids@[i as int],
                    )),
                found matches Some(q) ==> q < p,
            decreases order@.len() - p,
        {
            let g: usize = order[p];
            if is_listed(&groups[g].members, groups[g].members.len(), &ids[i]) {
                proof {
                    assert(members_listed(groups@, g as int, ids@[i as int]));
                    assert forall|q: int| 0 <= q < p implies !members_listed(
                        groups@,
                        (#[trigger] order@[q]) as int,
                        ids@[i as int],
                    ) by {
                        let h = order@[q];
                        assert(h != g);
                        if h < g {
                            assert(!(members_listed(groups@, h as int, ids@[i as int])
                                && members_listed(groups@, g as int, ids@[i as int])));
                        } else {
                            assert(!(members_listed(groups@, g as int, ids@[i as int])
                                && members_listed(groups@, h as int, ids@[i as int])));
                        }
                    }
                }
                found = Some(p);
            }
            p = p + 1;
        }
        group_of.push(found);
        i = i + 1;
    }
    group_of
}

pub open spec fn members_listed(groups: Seq<GroupDefinition>, g: int, id: DeviceId) -> bool {
    crate::reconcile::id_listed(groups[g].members@, groups[g].members@.len() as int, id)
}

impl Reconciler {
    pub fn new(
        devices: Vec<DeviceDefinition>,
        groups: Vec<GroupDefinition>,
        retry_policy: RetryPolicy,
    ) -> (result: Result<Self, ReconcileError>)
        requires
            retry_policy.wf(),
        ensures
            match result {
                Ok(reconciler) => {
                    &&& device_fault(devices@, devices@.len() as int) is None
                    &&& group_fault(devices@, groups@, groups@.len() as int) is None
                    &&& built(devices@, groups@, retry_policy, reconciler@)
                    &&& reconciler.wf()
                },
                Err(error) => if device_fault(devices@, devices@.len() as int) is Some {
                    device_fault(devices@, devices@.len() as int) == Some(error)
                } else {
                    group_fault(devices@, groups@, groups@.len() as int) == Some(error)
                },
            },
    {
        let device_order = match sorted_devices(&devices) {
            Ok(map) => map,
            Err(error) => return Err(error),
        };
        if let Some(error) = check_groups(&devices, &groups) {
            return Err(error);
        }
        proof {
            lemma_groups_sound(devices@, groups@, groups@.len() as int);
        }
        let group_order = sorted_groups(&groups);
        let mut ids: Vec<DeviceId> = Vec::new();
        let mut states: Vec<DeviceState> = Vec::new();
        let mut i: usize = 0;
        while i < device_order.len()
            invariant
                i <= device_order.pairs().len(),
                forall|p: int|
                    0 <= p < device_order.pairs().len() ==> (
                    #[trigger] device_order.pairs()[p]).1 < devices@.len(),
                ids@.len() == i,
                states@.len() == i,
                forall|p: int|
                    0 <= p < i ==> #[trigger] ids@[p] == device_order.pairs()[p].0,
                forall|p: int|
                    0 <= p < i ==> #[trigger] states@[p] == DeviceState::fresh(
                        devices@[device_order.pairs()[p].1 as int].capabilities,
                        devices@[device_order.pairs()[p].1 as int].color_policy,
                    ),
            decreases device_order.pairs().len() - i,
        {
            ids.push(device_order.key_at(i).clone());
            let d: usize = *device_order.value_at(i);
            assert(device_order.pairs()[i as int].1 < devices@.len());
            states.push(DeviceState::new(devices[d].capabilities, devices[d].color_policy));
            i = i + 1;
        }
        let mut group_ids: Vec<EntityId> = Vec::new();
        let mut group_states: Vec<GroupState> = Vec::new();
        let mut order: Vec<usize> = Vec::new();
        let mut g: usize = 0;
        while g < group_order.len()
            invariant
                g <= group_order.pairs().len(),
                forall|p: int|
                    0 <= p < group_order.pairs().len() ==> (#[trigger] group_order.pairs()[p]).1
                        < groups@.len(),
                group_ids@.len() == g,
                group_states@.len() == g,
                order@.len() == g,
                forall|p: int|
                    0 <= p < g ==> #[trigger] group_ids@[p] == group_order.pairs()[p].0,
                forall|p: int| 0 <= p < g ==> #[trigger] order@[p] == group_order.pairs()[p].1,
                forall|p: int|
                    0 <= p < g ==> #[trigger] group_states@[p] == (GroupState {
                        capabilities: groups@[group_order.pairs()[p].1 as int].capabilities,
                        logical_desired: None,
                        command_target: None,
                    }),
            decreases group_order.pairs().len() - g,
        {
            group_ids.push(group_order.key_at(g).clone());
            let d: usize = *group_order.value_at(g);
            assert(group_order.pairs()[g as int].1 < groups@.len());
            order.push(d);
            group_states.push(
                GroupState {
                    capabilities: groups[d].capabilities,
                    logical_desired: None,
                    command_target: None,
                },
            );
            g = g + 1;
        }
        proof {
            lemma_order_differs(groups@, group_order.pairs(), order@);
            lemma_members_differ(devices@, groups@);
        }
        let group_of = group_places(&ids, &groups, &order);
        let result = Reconciler {
            ids,
            devices: states,
            group_of,
            group_ids,
            groups: group_states,
            transport: TransportStatus::Disconnected,
            bridge: Availability::Unknown,
            retry_policy,
            next_dispatch_token: 1,
            staged_dispatches: Vec::new(),
            next_deferred_sequence: 1,
            deferred_dispatches: Vec::new(),
            last_time: None,
        };
        proof {
            lemma_new_wf(result, device_order.pairs(), group_order.pairs());
            lemma_new_built(
                result,
                devices@,
                groups@,
                device_order.pairs(),
                group_order.pairs(),
                order@,
            );
        }
        Ok(result)
    }
}

/// Sorted places hold different definitions.
proof fn lemma_order_differs(
    groups: Seq<GroupDefinition>,
    pairs: Seq<(EntityId, usize)>,
    order: Seq<usize>,
)
    requires
        order.len() == pairs.len(),
        crate::ordered::ascending(pairs),
        forall|p: int| 0 <= p < order.len() ==> #[trigger] order[p] == pairs[p].1,
        forall|p: int|
            0 <= p < pairs.len() ==> (#[trigger] pairs[p]).1 < groups.len()
                && groups[pairs[p].1 as int].id.key() == pairs[p].0.key(),
    ensures
        forall|p: int| 0 <= p < order.len() ==> (#[trigger] order[p]) < groups.len(),
        forall|p: int, q: int|
            0 <= p < q < order.len() ==> (#[trigger] order[p]) != (#[trigger] order[q]),
{
    assert forall|p: int, q: int| 0 <= p < q < order.len() implies (#[trigger] order[p]) != (
    #[trigger] order[q]) by {
        text::before_irreflexive(pairs[p].0.key());
        assert(text::before(pairs[p].0.key(), pairs[q].0.key()));
    }
}

/// Without a fault no device is listed by two groups.
proof fn lemma_members_differ(devices: Seq<DeviceDefinition>, groups: Seq<GroupDefinition>)
    requires
        forall|g: int|
            0 <= g < groups.len() ==> member_fault(
                devices,
                groups,
                g,
                (#[trigger] groups[g]).members@.len() as int,
            ) is None,
    ensures
        forall|g: int, h: int, id: DeviceId|
            0 <= g < h < groups.len() ==> !(#[trigger] members_listed(groups, g, id) && (
            #[trigger] members_listed(groups, h, id))),
{
    assert forall|g: int, h: int, id: DeviceId| 0 <= g < h < groups.len() implies !(
    #[trigger] members_listed(groups, g, id) && (#[trigger] members_listed(groups, h, id))) by {
        if members_listed(groups, g, id) && members_listed(groups, h, id) {
            let members = groups[h].members@;
            assert(member_fault(devices, groups, h, groups[h].members@.len() as int) is None);
            lemma_members_sound(devices, groups, h, members.len() as int);
            let j = choose|j: int|
                0 <= j < members.len() && (#[trigger] members[j]).text@ == id.text@;
            assert(!taken(groups, h, j, groups[h].members@[j]));
            let k = choose|k: int|
                0 <= k < groups[g].members@.len() && (#[trigger] groups[g].members@[k]).text@
                    == id.text@;
            assert(crate::reconcile::id_listed(
                groups[g].members@,
                groups[g].members@.len() as int,
                members[j],
            ));
        }
    }
}

proof fn lemma_new_wf(
    result: Reconciler,
    device_pairs: Seq<(DeviceId, usize)>,
    group_pairs: Seq<(EntityId, usize)>,
)
    requires
        crate::ordered::ascending(device_pairs),
        crate::ordered::ascending(group_pairs),
        result.retry_policy.wf(),
        result.ids@.len() == device_pairs.len(),
        result.devices@.len() == result.ids@.len(),
        result.group_of@.len() == result.ids@.len(),
        result.group_ids@.len() == group_pairs.len(),
        result.groups@.len() == group_pairs.len(),
        forall|p: int| 0 <= p < result.ids@.len() ==> #[trigger] result.ids@[p]
            == device_pairs[p].0,
        forall|p: int| 0 <= p < result.group_ids@.len() ==> #[trigger] result.group_ids@[p]
            == group_pairs[p].0,
        forall|p: int| 0 <= p < result.devices@.len() ==> (
        #[trigger] result.devices@[p]).pending is None,
        forall|p: int| 0 <= p < result.groups@.len() ==> (
        #[trigger] result.groups@[p]).command_target is None,
        forall|i: int|
            0 <= i < result.ids@.len() ==> ((#[trigger] result.group_of@[i]) matches Some(p) ==> p
                < group_pairs.len()),
        result.staged_dispatches@.len() == 0,
        result.deferred_dispatches@.len() == 0,
    ensures
        result.wf(),
{
    let model = result@;
    assert forall|i: int, j: int| 0 <= i < j < model.ids.len() implies text::before(
        (#[trigger] model.ids[i]).key(),
        (#[trigger] model.ids[j]).key(),
    ) by {
        assert(model.ids[i] == device_pairs[i].0 && model.ids[j] == device_pairs[j].0);
    }
    assert forall|i: int, j: int| 0 <= i < j < model.group_ids.len() implies text::before(
        text::bytes_of((#[trigger] model.group_ids[i]).text@),
        text::bytes_of((#[trigger] model.group_ids[j]).text@),
    ) by {
        assert(model.group_ids[i] == group_pairs[i].0 && model.group_ids[j] == group_pairs[j].0);
        assert(text::before(group_pairs[i].0.key(), group_pairs[j].0.key()));
    }
    assert forall|i: int| 0 <= i < model.ids.len() implies ((
    #[trigger] model.group_of[i]) matches Some(g) ==> {
        &&& g < model.groups.len()
        &&& model.groups[g as int].command_target is Some ==> model.devices[i].desired is Some
    }) by {
        assert(model.group_of[i] == result.group_of@[i]);
    }
    assert forall|i: int| 0 <= i < model.ids.len() implies ((
    #[trigger] model.devices[i]).pending matches Some(pending) ==> {
        &&& !model.devices[i].in_sync
        &&& 1 <= pending.attempts <= model.policy.max_attempts
    }) by {
        assert(model.devices[i] == result.devices@[i]);
    }
}

proof fn lemma_new_built(
    result: Reconciler,
    devices: Seq<DeviceDefinition>,
    groups: Seq<GroupDefinition>,
    device_pairs: Seq<(DeviceId, usize)>,
    group_pairs: Seq<(EntityId, usize)>,
    order: Seq<usize>,
)
    requires
        result.wf(),
        crate::ordered::ascending(device_pairs),
        crate::ordered::ascending(group_pairs),
        result.ids@.len() == device_pairs.len(),
        device_pairs.len() == devices.len(),
        result.group_ids@.len() == group_pairs.len(),
        group_pairs.len() == groups.len(),
        order.len() == groups.len(),
        forall|p: int| 0 <= p < result.ids@.len() ==> #[trigger] result.ids@[p]
            == device_pairs[p].0,
        forall|p: int| 0 <= p < result.group_ids@.len() ==> #[trigger] result.group_ids@[p]
            == group_pairs[p].0,
        forall|p: int| 0 <= p < order.len() ==> #[trigger] order[p] == group_pairs[p].1,
        forall|d: int|
            0 <= d < devices.len() ==> crate::ordered::map_of(device_pairs).contains_key(
                (#[trigger] devices[d]).id.key(),
            ) && crate::ordered::map_of(device_pairs)[devices[d].id.key()] == d,
        forall|g: int|
            0 <= g < groups.len() ==> crate::ordered::map_of(group_pairs).contains_key(
                (#[trigger] groups[g]).id.key(),
            ) && crate::ordered::map_of(group_pairs)[groups[g].id.key()] == g,
        forall|p: int|
            0 <= p < result.devices@.len() ==> #[trigger] result.devices@[p]
                == DeviceState::fresh(
                devices[device_pairs[p].1 as int].capabilities,
                devices[device_pairs[p].1 as int].color_policy,
            ),
        forall|p: int|
            0 <= p < result.groups@.len() ==> #[trigger] result.groups@[p] == (GroupState {
                capabilities: groups[group_pairs[p].1 as int].capabilities,
                logical_desired: None,
                command_target: None,
            }),
        forall|i: int, p: int|
            0 <= i < result.ids@.len() && 0 <= p < order.len() ==> ((
            #[trigger] result.group_of@[i] == Some(p as usize)) <==> members_listed(
                groups,
                (#[trigger] order[p]) as int,
                result.ids@[i],
            )),
        result.staged_dispatches@.len() == 0,
        result.deferred_dispatches@.len() == 0,
        result.transport is Disconnected,
        result.bridge is Unknown,
        result.next_dispatch_token == 1,
        result.next_deferred_sequence == 1,
        result.last_time is None,
    ensures
        built(devices, groups, result.retry_policy, result@),
{
    let model = result@;
    assert forall|d: int| 0 <= d < devices.len() implies model.knows((#[trigger] devices[d]).id)
        && model.devices[model.place(devices[d].id)] == DeviceState::fresh(
        devices[d].capabilities,
        devices[d].color_policy,
    ) by {
        let key = devices[d].id.key();
        let p = crate::ordered::index_of(device_pairs, key);
        crate::ordered::pair_is_mapped(device_pairs, p);
        assert(device_pairs[p].1 == d);
        assert(model.ids[p] == device_pairs[p].0);
        text::bytes_injective(model.ids[p].text@, devices[d].id.text@);
        assert(model.ids[p].text@ == devices[d].id.text@);
        let q = model.place(devices[d].id);
        text::before_irreflexive(model.ids[q].key());
        assert(p == q);
        assert(model.devices[p] == result.devices@[p]);
    }
    assert forall|g: int| 0 <= g < groups.len() implies model.knows_group((#[trigger] groups[g]).id)
        && model.groups[model.group_place(groups[g].id)] == (GroupState {
        capabilities: groups[g].capabilities,
        logical_desired: None,
        command_target: None,
    }) && order[model.group_place(groups[g].id)] == g && 0 <= model.group_place(groups[g].id)
        < groups.len() by {
        let key = groups[g].id.key();
        let p = crate::ordered::index_of(group_pairs, key);
        crate::ordered::pair_is_mapped(group_pairs, p);
        assert(group_pairs[p].1 == g);
        assert(model.group_ids[p] == group_pairs[p].0);
        text::bytes_injective(model.group_ids[p].text@, groups[g].id.text@);
        assert(model.group_ids[p].text@ == groups[g].id.text@);
        let q = model.group_place(groups[g].id);
        text::before_irreflexive(text::bytes_of(model.group_ids[q].text@));
        assert(p == q);
        assert(model.groups[p] == result.groups@[p]);
        assert(order[p] == group_pairs[p].1);
    }
    assert forall|i: int, g: int| 0 <= i < model.ids.len() && 0 <= g < groups.len() implies ((
    #[trigger] model.group_of[i] == Some(
        model.group_place((#[trigger] groups[g]).id) as usize,
    )) <==> crate::reconcile::id_listed(
        groups[g].members@,
        groups[g].members@.len() as int,
        model.ids[i],
    )) by {
        let p = model.group_place(groups[g].id);
        assert(order[p] == g);
        assert(result.group_of@[i] == model.group_of[i]);
        assert(members_listed(groups, g, model.ids[i]) == crate::reconcile::id_listed(
            groups[g].members@,
            groups[g].members@.len() as int,
            model.ids[i],
        ));
    }
}

/// Result of claiming one ordered publication from a registered dispatch plan.
///
/// `Ready` contains a permit borrowing the reconciler mutably. The executor
/// must retain that permit across the asynchronous MQTT enqueue and then
/// consume it with exactly one completion method. This makes a desired-state
/// mutation through the same single-owner actor impossible while enqueue is in
/// flight. A stale or previously accepted publication is skipped benignly.
pub enum DispatchClaim<'a> {
    Ready(DispatchPermit<'a>),
    AlreadyAccepted,
    Stale,
}

/// Exclusive lease for one MQTT publication in a dispatch batch.
///
/// Holding this value keeps a mutable borrow of the reconciler. Runtime code
/// must keep the reconciler in one actor and hold the permit across `.await`;
/// do not introduce a second mutex-backed mutation path around this contract.
#[must_use]
pub struct DispatchPermit<'a> {
    pub reconciler: &'a mut Reconciler,
    pub token: DispatchToken,
    pub operation_index: usize,
}

impl<'a> DispatchPermit<'a> {
    /// Records this publication as accepted by the MQTT client.
    ///
    /// The final operation completes the atomic batch and starts each affected
    /// device's on-wire correlation deadline after its hardware transition;
    /// earlier operations only advance plan progress.
    pub fn accepted(self, now: MonotonicTime) -> (result: Result<
        DispatchAcceptance,
        ReconcileError,
    >)
        requires
            (*self.reconciler).wf(),
        ensures
            returned(
                old(self.reconciler)@.completed(
                    now,
                    old(self.reconciler)@.accepted(self.token, self.operation_index, now),
                ),
                old(self.reconciler)@,
                final(self.reconciler)@,
                result,
            ),
            final(self.reconciler).wf(),
    {
        self.reconciler.accept_dispatch_operation(self.token, self.operation_index, now)
    }

    /// Moves the entire batch to local-failure backoff without consuming an
    /// on-wire attempt, including when earlier operations were accepted.
    pub fn transient_failure(self, now: MonotonicTime) -> (result: Result<(), ReconcileError>)
        requires
            (*self.reconciler).wf(),
        ensures
            returned(
                old(self.reconciler)@.completed(
                    now,
                    old(self.reconciler)@.failed(self.token, self.operation_index, now),
                ),
                old(self.reconciler)@,
                final(self.reconciler)@,
                result,
            ),
            final(self.reconciler).wf(),
    {
        self.reconciler.fail_dispatch_operation(self.token, self.operation_index, now)
    }

    /// Cancels the entire batch after a permanent adapter/configuration error.
    pub fn permanent_failure(self, now: MonotonicTime) -> (result: Result<(), ReconcileError>)
        requires
            (*self.reconciler).wf(),
        ensures
            returned(
                old(self.reconciler)@.completed(
                    now,
                    old(self.reconciler)@.abandoned(self.token, self.operation_index),
                ),
                old(self.reconciler)@,
                final(self.reconciler)@,
                result,
            ),
            final(self.reconciler).wf(),
    {
        self.reconciler.cancel_claimed_dispatch(self.token, self.operation_index, now)
    }
}

impl Reconciler {
    /// Claims the next ordered operation for exclusive MQTT enqueue.
    ///
    /// Claims for invalidated tokens and already accepted indices are benign.
    /// Skipping forward is a malformed executor plan and remains an error.
    pub fn claim_next_operation(&mut self, token: DispatchToken, operation_index: usize) -> (result:
        Result<DispatchClaim<'_>, ReconcileError>)
        requires
            old(self).wf(),
        ensures
            match old(self)@.claim(token, operation_index) {
                Claim::Stale => {
                    &&& result matches Ok(DispatchClaim::Stale)
                    &&& *final(self) == *old(self)
                },
                Claim::AlreadyAccepted => {
                    &&& result matches Ok(DispatchClaim::AlreadyAccepted)
                    &&& *final(self) == *old(self)
                },
                Claim::Refused(error) => {
                    &&& result matches Err(refusal) && refusal == error
                    &&& *final(self) == *old(self)
                },
                Claim::Granted => {
                    &&& result matches Ok(DispatchClaim::Ready(permit))
                    &&& *permit.reconciler == *old(self)
                    &&& permit.token == token
                    &&& permit.operation_index == operation_index
                    &&& *final(self) == *final(permit.reconciler)
                },
            },
    {
        let k: usize = match self.find_token(token) {
            Some(k) => k,
            None => return Ok(DispatchClaim::Stale),
        };
        assert(self@.staged[k as int] == self.staged_dispatches@[k as int]@);
        let plan = match self.staged_dispatches[k].plan {
            Some(plan) => plan,
            None => return Err(ReconcileError::UnregisteredDispatchPlan(token)),
        };
        if operation_index < plan.next_operation_index {
            return Ok(DispatchClaim::AlreadyAccepted);
        }
        if operation_index != plan.next_operation_index || operation_index
            >= plan.operation_count {
            return Err(
                ReconcileError::UnexpectedDispatchOperation {
                    expected: plan.next_operation_index,
                    actual: operation_index,
                    operation_count: plan.operation_count,
                },
            );
        }
        Ok(DispatchClaim::Ready(DispatchPermit { reconciler: self, token, operation_index }))
    }
}

} // verus!
