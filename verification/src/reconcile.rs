//! Devices, groups and the policies by which they are reconciled.
use crate::double::Double;
use crate::ordered::{Duplicate, OrderedKey, SortedMap};
use crate::state::MonotonicTime;
use crate::text;
use crate::value::{Capabilities, DeviceTarget, LightTarget};
use vstd::prelude::*;

pub use crate::color::{ColorComparisonPolicy, ColorGamut};

verus! {

/// Bits of `1000.0`.
pub const MILLISECONDS: u64 = 0x408f_4000_0000_0000;

/// Bits of `5.0`.
pub const ACCEPTANCE_TIMEOUT: u64 = 0x4014_0000_0000_0000;

/// Bits of `0.5`.
pub const FAILURE_BACKOFF: u64 = 0x3fe0_0000_0000_0000;

/// Bits of the greatest finite number.
pub const GREATEST: u64 = 0x7fef_ffff_ffff_ffff;

/// Bits of `1.0 / 254.0`.
pub const BRIGHTNESS_STEP: u64 = 0x3f70_2040_8102_0408;

/// Bits of `0.01`.
pub const KELVIN_TOLERANCE: u64 = 0x3f84_7ae1_47ae_147b;

#[derive(Debug, Clone, PartialEq)]
pub enum ReconcileError {
    InvalidIdentifier,
    InvalidRetryInterval,
    InvalidRetryAttempts,
    InvalidDispatchAcceptanceTimeout,
    InvalidDispatchFailureBackoff,
    RetryDeadlineOverflow,
    DispatchAcceptanceDeadlineOverflow,
    DispatchFailureDeadlineOverflow,
    DispatchTokenOverflow,
    DeferredSequenceOverflow,
    UnknownDispatchToken(DispatchToken),
    InvalidDispatchOperationCount,
    UnregisteredDispatchPlan(DispatchToken),
    DispatchPlanMismatch(DispatchToken),
    UnexpectedDispatchOperation { expected: usize, actual: usize, operation_count: usize },
    InvalidColorGamut,
    InvalidColorComparisonPolicy,
    MonotonicClockRegressed,
    DuplicateDevice(DeviceId),
    UnknownDevice(DeviceId),
    DuplicateGroup(EntityId),
    UnknownGroup(EntityId),
    EmptyGroup(EntityId),
    DuplicateGroupMember,
    DeviceInMultipleGroups(DeviceId),
}

/// Name of a device.
#[derive(Debug, PartialEq, Eq, PartialOrd, Ord, Hash)]
pub struct DeviceId {
    pub text: String,
}

impl DeviceId {
    pub open spec fn wf(self) -> bool {
        text::identifier(self.text@)
    }

    pub fn new(value: String) -> (result: Result<Self, ReconcileError>)
        ensures
            result == if text::identifier(value@) {
                Ok::<DeviceId, ReconcileError>(DeviceId { text: value })
            } else {
                Err(ReconcileError::InvalidIdentifier)
            },
    {
        if text::is_identifier(value.as_str()) {
            Ok(DeviceId { text: value })
        } else {
            Err(ReconcileError::InvalidIdentifier)
        }
    }

    pub fn as_str(&self) -> (text: &str)
        ensures
            text@ == self.text@,
    {
        self.text.as_str()
    }
}

impl Clone for DeviceId {
    fn clone(&self) -> (result: Self)
        ensures
            result == *self,
    {
        DeviceId { text: self.text.clone() }
    }
}

impl Duplicate for DeviceId {
    fn duplicate(&self) -> (result: Self) {
        self.clone()
    }
}

impl OrderedKey for DeviceId {
    open spec fn key(&self) -> Seq<u8> {
        text::bytes_of(self.text@)
    }

    fn precedes(&self, other: &Self) -> (result: bool) {
        let result = text::text_precedes(self.text.as_str(), other.text.as_str());
        assert(result == text::precedes(self.text@, other.text@));
        result
    }

    fn matches_key(&self, other: &Self) -> (result: bool) {
        proof {
            text::bytes_injective(self.text@, other.text@);
        }
        text::text_equals(self.text.as_str(), other.text.as_str())
    }
}

/// Name of a group or another commanded entity.
#[derive(Debug, PartialEq, Eq, PartialOrd, Ord, Hash)]
pub struct EntityId {
    pub text: String,
}

impl EntityId {
    pub open spec fn wf(self) -> bool {
        text::identifier(self.text@)
    }

    pub fn new(value: String) -> (result: Result<Self, ReconcileError>)
        ensures
            result == if text::identifier(value@) {
                Ok::<EntityId, ReconcileError>(EntityId { text: value })
            } else {
                Err(ReconcileError::InvalidIdentifier)
            },
    {
        if text::is_identifier(value.as_str()) {
            Ok(EntityId { text: value })
        } else {
            Err(ReconcileError::InvalidIdentifier)
        }
    }

    pub fn as_str(&self) -> (text: &str)
        ensures
            text@ == self.text@,
    {
        self.text.as_str()
    }
}

impl Clone for EntityId {
    fn clone(&self) -> (result: Self)
        ensures
            result == *self,
    {
        EntityId { text: self.text.clone() }
    }
}

impl Duplicate for EntityId {
    fn duplicate(&self) -> (result: Self) {
        self.clone()
    }
}

impl OrderedKey for EntityId {
    open spec fn key(&self) -> Seq<u8> {
        text::bytes_of(self.text@)
    }

    fn precedes(&self, other: &Self) -> (result: bool) {
        let result = text::text_precedes(self.text.as_str(), other.text.as_str());
        assert(result == text::precedes(self.text@, other.text@));
        result
    }

    fn matches_key(&self, other: &Self) -> (result: bool) {
        proof {
            text::bytes_injective(self.text@, other.text@);
        }
        text::text_equals(self.text.as_str(), other.text.as_str())
    }
}

#[derive(Debug, Clone, Copy, PartialEq, Eq, Structural)]
pub enum Availability {
    Unknown,
    Online,
    Offline,
}

#[derive(Debug, Clone, Copy, PartialEq, Eq, Structural)]
pub enum TransportStatus {
    Connected,
    Disconnected,
}

/// A later moment, unless it cannot be told from `now` or is out of range.
pub open spec fn later(now: MonotonicTime, offset: Double, overflow: ReconcileError) -> Result<
    MonotonicTime,
    ReconcileError,
> {
    let seconds = now.value.sum(offset);
    if !seconds.finite() || seconds.at_most(now.value) || seconds.less(Double { bits: 0 }) {
        Err(overflow)
    } else {
        Ok(MonotonicTime { value: seconds })
    }
}

fn checked_deadline(now: MonotonicTime, offset_seconds: Double, overflow: ReconcileError) -> (result:
    Result<MonotonicTime, ReconcileError>)
    ensures
        result == later(now, offset_seconds, overflow),
        result matches Ok(deadline) ==> deadline.wf(),
{
    let seconds = now.value.plus(offset_seconds);
    if !seconds.is_finite() || seconds.le(now.value) {
        return Err(overflow);
    }
    match MonotonicTime::from_seconds(seconds) {
        Ok(deadline) => Ok(deadline),
        Err(_) => Err(overflow),
    }
}

/// A later moment, or the last one.
pub open spec fn later_or_last(now: MonotonicTime, offset: Double) -> MonotonicTime {
    let seconds = now.value.sum(offset);
    if seconds.finite() && now.value.less(seconds) {
        MonotonicTime { value: seconds }
    } else {
        MonotonicTime { value: Double { bits: GREATEST } }
    }
}

fn saturating_deadline(now: MonotonicTime, offset_seconds: Double) -> (deadline: MonotonicTime)
    ensures
        deadline == later_or_last(now, offset_seconds),
{
    let seconds = now.value.plus(offset_seconds);
    if seconds.is_finite() && now.value.lt(seconds) {
        MonotonicTime { value: seconds }
    } else {
        MonotonicTime { value: Double::from_bits(GREATEST) }
    }
}

/// When and how often commands are sent again.
#[derive(Debug, Clone, Copy, PartialEq)]
pub struct RetryPolicy {
    pub interval_seconds: Double,
    pub max_attempts: u8,
    pub dispatch_acceptance_timeout_seconds: Double,
    pub dispatch_failure_backoff_seconds: Double,
}

pub open spec fn positive(seconds: Double) -> bool {
    seconds.finite() && !seconds.at_most(Double { bits: 0 })
}

impl RetryPolicy {
    pub open spec fn wf(self) -> bool {
        &&& positive(self.interval_seconds)
        &&& 1 <= self.max_attempts <= 10
        &&& positive(self.dispatch_acceptance_timeout_seconds)
        &&& positive(self.dispatch_failure_backoff_seconds)
    }

    pub fn new(interval_seconds: Double, max_attempts: u8) -> (result: Result<Self, ReconcileError>)
        ensures
            result == if !positive(interval_seconds) {
                Err::<RetryPolicy, ReconcileError>(ReconcileError::InvalidRetryInterval)
            } else if !(1 <= max_attempts <= 10) {
                Err(ReconcileError::InvalidRetryAttempts)
            } else {
                Ok(
                    RetryPolicy {
                        interval_seconds,
                        max_attempts,
                        dispatch_acceptance_timeout_seconds: Double { bits: ACCEPTANCE_TIMEOUT },
                        dispatch_failure_backoff_seconds: Double { bits: FAILURE_BACKOFF },
                    },
                )
            },
            result matches Ok(policy) ==> policy.wf(),
    {
        if !interval_seconds.is_finite() || interval_seconds.le(Double::from_bits(0)) {
            return Err(ReconcileError::InvalidRetryInterval);
        }
        if max_attempts < 1 || 10 < max_attempts {
            return Err(ReconcileError::InvalidRetryAttempts);
        }
        Ok(
            RetryPolicy {
                interval_seconds,
                max_attempts,
                dispatch_acceptance_timeout_seconds: Double::from_bits(ACCEPTANCE_TIMEOUT),
                dispatch_failure_backoff_seconds: Double::from_bits(FAILURE_BACKOFF),
            },
        )
    }

    /// Configures local dispatch acknowledgement and retry timing.
    ///
    /// The acceptance timeout is a margin added after the adapter's largest
    /// registered plan-relative publication delay. The executor must drive
    /// `retry_due` often enough to sweep expired staged tokens and release
    /// deferred work at its deadline.
    pub fn with_dispatch_timing(
        self,
        acceptance_timeout_seconds: Double,
        failure_backoff_seconds: Double,
    ) -> (result: Result<Self, ReconcileError>)
        ensures
            result == if !positive(acceptance_timeout_seconds) {
                Err::<RetryPolicy, ReconcileError>(ReconcileError::InvalidDispatchAcceptanceTimeout)
            } else if !positive(failure_backoff_seconds) {
                Err(ReconcileError::InvalidDispatchFailureBackoff)
            } else {
                Ok(
                    RetryPolicy {
                        dispatch_acceptance_timeout_seconds: acceptance_timeout_seconds,
                        dispatch_failure_backoff_seconds: failure_backoff_seconds,
                        ..self
                    },
                )
            },
            self.wf() ==> (result matches Ok(policy) ==> policy.wf()),
    {
        if !acceptance_timeout_seconds.is_finite() || acceptance_timeout_seconds.le(
            Double::from_bits(0),
        ) {
            return Err(ReconcileError::InvalidDispatchAcceptanceTimeout);
        }
        if !failure_backoff_seconds.is_finite() || failure_backoff_seconds.le(
            Double::from_bits(0),
        ) {
            return Err(ReconcileError::InvalidDispatchFailureBackoff);
        }
        Ok(
            RetryPolicy {
                interval_seconds: self.interval_seconds,
                max_attempts: self.max_attempts,
                dispatch_acceptance_timeout_seconds: acceptance_timeout_seconds,
                dispatch_failure_backoff_seconds: failure_backoff_seconds,
            },
        )
    }

    /// When a command that was just sent should have been observed.
    pub open spec fn correlation_time(
        self,
        now: MonotonicTime,
        transition_ms: Option<u64>,
    ) -> MonotonicTime {
        let milliseconds = match transition_ms {
            Some(value) => value,
            None => 0,
        };
        later_or_last(
            now,
            Double::of_nat(milliseconds as nat).quotient(Double { bits: MILLISECONDS }).sum(
                self.interval_seconds,
            ),
        )
    }

    pub(crate) fn correlation_deadline(self, now: MonotonicTime, transition_ms: Option<u64>) -> (deadline:
        MonotonicTime)
        ensures
            deadline == self.correlation_time(now, transition_ms),
    {
        let milliseconds: u64 = match transition_ms {
            Some(value) => value,
            None => 0,
        };
        let transition_seconds = Double::from_u64(milliseconds).over(
            Double::from_bits(MILLISECONDS),
        );
        saturating_deadline(now, transition_seconds.plus(self.interval_seconds))
    }

    /// Until when a plan that starts at `epoch` may be accepted.
    pub open spec fn acceptance_time(self, epoch: MonotonicTime, max_offset_ms: u64) -> Result<
        MonotonicTime,
        ReconcileError,
    > {
        later(
            epoch,
            Double::of_nat(max_offset_ms as nat).quotient(Double { bits: MILLISECONDS }).sum(
                self.dispatch_acceptance_timeout_seconds,
            ),
            ReconcileError::DispatchAcceptanceDeadlineOverflow,
        )
    }

    pub(crate) fn dispatch_acceptance_deadline(
        self,
        epoch: MonotonicTime,
        max_offset_ms: u64,
    ) -> (result: Result<MonotonicTime, ReconcileError>)
        ensures
            result == self.acceptance_time(epoch, max_offset_ms),
    {
        let max_offset_seconds = Double::from_u64(max_offset_ms).over(
            Double::from_bits(MILLISECONDS),
        );
        checked_deadline(
            epoch,
            max_offset_seconds.plus(self.dispatch_acceptance_timeout_seconds),
            ReconcileError::DispatchAcceptanceDeadlineOverflow,
        )
    }

    /// When a failed dispatch is tried again.
    pub open spec fn failure_time(self, now: MonotonicTime) -> Result<
        MonotonicTime,
        ReconcileError,
    > {
        later(
            now,
            self.dispatch_failure_backoff_seconds,
            ReconcileError::DispatchFailureDeadlineOverflow,
        )
    }

    pub(crate) fn dispatch_failure_deadline(self, now: MonotonicTime) -> (result: Result<
        MonotonicTime,
        ReconcileError,
    >)
        ensures
            result == self.failure_time(now),
    {
        checked_deadline(
            now,
            self.dispatch_failure_backoff_seconds,
            ReconcileError::DispatchFailureDeadlineOverflow,
        )
    }
}

#[derive(Debug, PartialEq)]
pub struct DeviceDefinition {
    pub id: DeviceId,
    pub capabilities: Capabilities,
    pub color_policy: ColorComparisonPolicy,
}

impl DeviceDefinition {
    pub fn new(id: DeviceId, capabilities: Capabilities) -> (result: Self)
        ensures
            result == (DeviceDefinition {
                id,
                capabilities,
                color_policy: ColorComparisonPolicy::standard(),
            }),
    {
        DeviceDefinition { id, capabilities, color_policy: ColorComparisonPolicy::default() }
    }

    pub fn with_color_policy(
        id: DeviceId,
        capabilities: Capabilities,
        color_policy: ColorComparisonPolicy,
    ) -> (result: Self)
        ensures
            result == (DeviceDefinition { id, capabilities, color_policy }),
    {
        DeviceDefinition { id, capabilities, color_policy }
    }

    pub fn id(&self) -> (id: &DeviceId)
        ensures
            *id == self.id,
    {
        &self.id
    }

    pub fn capabilities(&self) -> (capabilities: Capabilities)
        ensures
            capabilities == self.capabilities,
    {
        self.capabilities
    }
}

impl Clone for DeviceDefinition {
    fn clone(&self) -> (result: Self)
        ensures
            result == *self,
    {
        DeviceDefinition {
            id: self.id.clone(),
            capabilities: self.capabilities,
            color_policy: self.color_policy,
        }
    }
}

/// A native Zigbee synchronization group.
///
/// Physical command groups must not overlap: one device may belong to at most
/// one such group. Logical room/floor/house scopes are separate and can fan out
/// across several native groups and individual devices.
#[derive(Debug, PartialEq)]
pub struct GroupDefinition {
    pub id: EntityId,
    pub members: Vec<DeviceId>,
    pub capabilities: Capabilities,
}

/// Names ascend strictly.
pub open spec fn ids_ascend(ids: Seq<DeviceId>) -> bool {
    forall|i: int, j: int|
        0 <= i < j < ids.len() ==> text::before(
            (#[trigger] ids[i]).key(),
            (#[trigger] ids[j]).key(),
        )
}

/// `chosen` lists the names of `devices`, each once and in order.
pub open spec fn same_set(devices: Seq<DeviceId>, chosen: Seq<DeviceId>) -> bool {
    &&& ids_ascend(chosen)
    &&& forall|i: int| 0 <= i < chosen.len() ==> devices.contains(#[trigger] chosen[i])
    &&& forall|i: int|
        0 <= i < devices.len() ==> id_listed(chosen, chosen.len() as int, #[trigger] devices[i])
}

pub(crate) fn distinct(devices: &Vec<DeviceId>) -> (chosen: Vec<DeviceId>)
    ensures
        same_set(devices@, chosen@),
{
    let mut names: SortedMap<DeviceId, ()> = SortedMap::new();
    let mut i: usize = 0;
    while i < devices.len()
        invariant
            i <= devices@.len(),
            forall|p: int|
                0 <= p < names.pairs().len() ==> devices@.contains((#[trigger] names.pairs()[p]).0),
            forall|k: int|
                0 <= k < i ==> names@.contains_key((#[trigger] devices@[k]).key()),
        decreases devices@.len() - i,
    {
        let ghost before = names.pairs();
        names.set(devices[i].clone(), ());
        proof {
            let after = names.pairs();
            crate::ordered::keys_are_given(before, devices@[i as int], ());
            assert forall|p: int| 0 <= p < after.len() implies devices@.contains(
                (#[trigger] after[p]).0,
            ) by {
                if after[p].0 != devices@[i as int] {
                    let q = choose|q: int|
                        0 <= q < before.len() && (#[trigger] before[q]).0 == after[p].0;
                    assert(devices@.contains(before[q].0));
                }
            }
        }
        i = i + 1;
    }
    let pairs = names.into_pairs();
    let mut chosen: Vec<DeviceId> = Vec::new();
    let mut p: usize = 0;
    while p < pairs.len()
        invariant
            p <= pairs@.len(),
            chosen@.len() == p,
            forall|q: int| 0 <= q < p ==> #[trigger] chosen@[q] == pairs@[q].0,
        decreases pairs@.len() - p,
    {
        chosen.push(pairs[p].0.clone());
        p = p + 1;
    }
    proof {
        assert forall|a: int, b: int| 0 <= a < b < chosen@.len() implies text::before(
            (#[trigger] chosen@[a]).key(),
            (#[trigger] chosen@[b]).key(),
        ) by {
            assert(chosen@[a] == pairs@[a].0 && chosen@[b] == pairs@[b].0);
        }
        assert forall|a: int| 0 <= a < chosen@.len() implies devices@.contains(
            #[trigger] chosen@[a],
        ) by {
            assert(devices@.contains(pairs@[a].0));
        }
        assert forall|k: int| 0 <= k < devices@.len() implies id_listed(
            chosen@,
            chosen@.len() as int,
            #[trigger] devices@[k],
        ) by {
            assert(crate::ordered::has_key(pairs@, devices@[k].key()));
            let j = crate::ordered::index_of(pairs@, devices@[k].key());
            assert(chosen@[j] == pairs@[j].0);
            text::bytes_injective(chosen@[j].text@, devices@[k].text@);
        }
    }
    chosen
}

/// `id` is among the first `n` names.
pub open spec fn id_listed(ids: Seq<DeviceId>, n: int, id: DeviceId) -> bool {
    exists|i: int| 0 <= i < n && (#[trigger] ids[i]).text@ == id.text@
}

/// No name occurs twice among the first `n`.
pub open spec fn ids_differ(ids: Seq<DeviceId>, n: int) -> bool {
    forall|i: int, j: int|
        0 <= i < j < n ==> (#[trigger] ids[i]).text@ != (#[trigger] ids[j]).text@
}

/// Every name of `a` is one of `b`.
spec fn drawn_from(a: Seq<DeviceId>, b: Seq<DeviceId>) -> bool {
    forall|k: int| 0 <= k < a.len() ==> b.contains(#[trigger] a[k])
}

proof fn lemma_sorted_insert(sorted: Seq<DeviceId>, members: Seq<DeviceId>, i: int, p: int)
    requires
        0 <= i < members.len(),
        0 <= p <= sorted.len(),
        ids_ascend(sorted),
        ids_differ(members, i),
        sorted.to_multiset() == members.take(i).to_multiset(),
        drawn_from(sorted, members.take(i)),
        drawn_from(members.take(i), sorted),
        forall|k: int| 0 <= k < p ==> text::before((#[trigger] sorted[k]).key(), members[i].key()),
        p < sorted.len() ==> text::before(members[i].key(), sorted[p].key()),
    ensures
        ids_ascend(sorted.insert(p, members[i])),
        ids_differ(members, i + 1),
        sorted.insert(p, members[i]).to_multiset() == members.take(i + 1).to_multiset(),
        drawn_from(sorted.insert(p, members[i]), members.take(i + 1)),
        drawn_from(members.take(i + 1), sorted.insert(p, members[i])),
{
    let member = members[i];
    let next = sorted.insert(p, member);
    let earlier = members.take(i);
    let later = members.take(i + 1);
    assert forall|k: int| p <= k < sorted.len() implies text::before(
        member.key(),
        (#[trigger] sorted[k]).key(),
    ) by {
        if k > p {
            text::before_transitive(member.key(), sorted[p].key(), sorted[k].key());
        }
    }
    text::before_irreflexive(member.key());
    assert forall|j: int| 0 <= j < i implies (#[trigger] members[j]).text@ != member.text@ by {
        assert(earlier[j] == members[j]);
        let k = sorted.index_of(members[j]);
        assert(sorted[k].key() != member.key());
    }
    assert forall|a: int, b: int| 0 <= a < b < next.len() implies text::before(
        (#[trigger] next[a]).key(),
        (#[trigger] next[b]).key(),
    ) by {
        let x = if a < p { a } else { a - 1 };
        let y = if b < p { b } else { b - 1 };
        assert(a != p ==> next[a] == sorted[x]);
        assert(b != p ==> next[b] == sorted[y]);
    }
    assert(next.to_multiset() == later.to_multiset()) by {
        broadcast use vstd::seq_lib::group_to_multiset_ensures;

        vstd::seq_lib::to_multiset_insert(sorted, p, member);
        assert(later =~= earlier.push(member));
    }
    assert forall|k: int| 0 <= k < next.len() implies later.contains(#[trigger] next[k]) by {
        if k == p {
            assert(later[i] == next[k]);
        } else {
            let x = if k < p { k } else { k - 1 };
            assert(next[k] == sorted[x]);
            let j = earlier.index_of(sorted[x]);
            assert(later[j] == next[k]);
        }
    }
    assert forall|j: int| 0 <= j < later.len() implies next.contains(#[trigger] later[j]) by {
        if j == i {
            assert(next[p] == later[j]);
        } else {
            assert(earlier[j] == later[j]);
            let k = sorted.index_of(later[j]);
            assert(next[if k < p { k } else { k + 1 }] == later[j]);
        }
    }
}

impl GroupDefinition {
    /// There are members, in ascending order.
    pub open spec fn wf(self) -> bool {
        self.members@.len() > 0 && ids_ascend(self.members@)
    }

    pub fn new(id: EntityId, members: Vec<DeviceId>, capabilities: Capabilities) -> (result: Result<
        Self,
        ReconcileError,
    >)
        ensures
            match result {
                Ok(group) => {
                    &&& members@.len() > 0
                    &&& ids_differ(members@, members@.len() as int)
                    &&& group.id == id
                    &&& group.capabilities == capabilities
                    &&& group.members@.to_multiset() == members@.to_multiset()
                    &&& group.wf()
                },
                Err(error) => if members@.len() == 0 {
                    error == ReconcileError::EmptyGroup(id)
                } else {
                    error == ReconcileError::DuplicateGroupMember && !ids_differ(
                        members@,
                        members@.len() as int,
                    )
                },
            },
    {
        if members.len() == 0 {
            return Err(ReconcileError::EmptyGroup(id));
        }
        let mut sorted: Vec<DeviceId> = Vec::new();
        let mut i: usize = 0;
        assert(members@.take(0) =~= Seq::<DeviceId>::empty());
        while i < members.len()
            invariant
                i <= members@.len(),
                ids_ascend(sorted@),
                ids_differ(members@, i as int),
                sorted@.to_multiset() == members@.take(i as int).to_multiset(),
                drawn_from(sorted@, members@.take(i as int)),
                drawn_from(members@.take(i as int), sorted@),
            decreases members@.len() - i,
        {
            let ghost before = sorted@;
            let member = members[i].clone();
            let mut p: usize = 0;
            while p < sorted.len() && sorted[p].precedes(&member)
                invariant
                    p <= sorted@.len(),
                    sorted@ == before,
                    forall|k: int|
                        0 <= k < p ==> text::before((#[trigger] before[k]).key(), member.key()),
                decreases sorted@.len() - p,
            {
                p = p + 1;
            }
            if p < sorted.len() && sorted[p].matches_key(&member) {
                proof {
                    text::bytes_injective(before[p as int].text@, member.text@);
                    let earlier = members@.take(i as int);
                    assert(earlier.contains(before[p as int]));
                    let j = earlier.index_of(before[p as int]);
                    assert(members@[j].text@ == members@[i as int].text@);
                }
                return Err(ReconcileError::DuplicateGroupMember);
            }
            proof {
                if p < before.len() {
                    text::before_total(before[p as int].key(), member.key());
                }
                lemma_sorted_insert(before, members@, i as int, p as int);
            }
            sorted.insert(p, member);
            i = i + 1;
        }
        assert(members@.take(members@.len() as int) =~= members@);
        assert(sorted@.contains(members@[0]));
        Ok(GroupDefinition { id, members: sorted, capabilities })
    }
}

/// What a command is addressed to.
#[derive(Debug, PartialEq)]
pub enum CommandEntity {
    Device(DeviceId),
    Group(EntityId),
}

impl Clone for CommandEntity {
    fn clone(&self) -> (result: Self)
        ensures
            result == *self,
    {
        match self {
            CommandEntity::Device(id) => CommandEntity::Device(id.clone()),
            CommandEntity::Group(id) => CommandEntity::Group(id.clone()),
        }
    }
}

/// Identifies a staged batch of commands.
#[derive(Debug, Clone, Copy, PartialEq, Eq, PartialOrd, Ord, Hash, Structural)]
pub struct DispatchToken {
    pub value: u64,
}

impl DispatchToken {
    pub fn get(self) -> (value: u64)
        ensures
            value == self.value,
    {
        self.value
    }
}

#[derive(Debug, Clone, Copy, PartialEq, Eq, Structural)]
pub enum DispatchRegistrationOutcome {
    Registered,
    AlreadyRegistered,
    Stale,
}

#[derive(Debug, Clone, Copy, PartialEq, Eq, Structural)]
pub enum DispatchAcceptance {
    OperationAccepted { remaining: usize },
    BatchAccepted,
}

#[derive(Debug, Clone, Copy, PartialEq, Eq, Structural)]
pub enum DispatchCancellation {
    Cancelled,
    Stale,
}

/// What the reconciler asks its executor to do.
#[derive(Debug, PartialEq)]
pub enum ReconcileAction {
    Resubscribe,
    RequestState(DeviceId),
    Command { token: DispatchToken, entity: CommandEntity, target: DeviceTarget },
}

impl Clone for ReconcileAction {
    fn clone(&self) -> (result: Self)
        ensures
            result == *self,
    {
        match self {
            ReconcileAction::Resubscribe => ReconcileAction::Resubscribe,
            ReconcileAction::RequestState(id) => ReconcileAction::RequestState(id.clone()),
            ReconcileAction::Command { token, entity, target } => ReconcileAction::Command {
                token: *token,
                entity: entity.clone(),
                target: *target,
            },
        }
    }
}

/// The execution shape of an adapter plan.
#[derive(Debug, Clone, Copy, PartialEq)]
pub struct RegisteredDispatchPlan {
    pub epoch: MonotonicTime,
    pub operation_count: usize,
    pub max_offset_ms: u64,
    pub next_operation_index: usize,
}

/// What a batch sends to one device, and for which time.
#[derive(Debug, Clone, Copy, PartialEq)]
pub struct StagedAttempt {
    pub target: DeviceTarget,
    pub attempts: u8,
}

/// A command that was sent and not yet observed.
#[derive(Debug, Clone, Copy, PartialEq)]
pub struct PendingCommand {
    pub target: DeviceTarget,
    pub deadline: MonotonicTime,
    pub attempts: u8,
}

impl PendingCommand {
    pub fn target(self) -> (target: DeviceTarget)
        ensures
            target == self.target,
    {
        self.target
    }

    pub fn deadline(self) -> (deadline: MonotonicTime)
        ensures
            deadline == self.deadline,
    {
        self.deadline
    }

    pub fn attempts(self) -> (attempts: u8)
        ensures
            attempts == self.attempts,
    {
        self.attempts
    }
}

/// What is known of one device.
#[derive(Debug, Clone, Copy, PartialEq)]
pub struct DeviceState {
    pub capabilities: Capabilities,
    pub color_policy: ColorComparisonPolicy,
    pub availability: Availability,
    pub desired: Option<DeviceTarget>,
    pub observed: Option<DeviceTarget>,
    pub last_command: Option<DeviceTarget>,
    pub pending: Option<PendingCommand>,
    pub in_sync: bool,
}

impl Duplicate for DeviceState {
    fn duplicate(&self) -> (result: Self) {
        *self
    }
}

impl DeviceState {
    pub open spec fn fresh(
        capabilities: Capabilities,
        color_policy: ColorComparisonPolicy,
    ) -> DeviceState {
        DeviceState {
            capabilities,
            color_policy,
            availability: Availability::Unknown,
            desired: None,
            observed: None,
            last_command: None,
            pending: None,
            in_sync: true,
        }
    }

    pub(crate) fn new(capabilities: Capabilities, color_policy: ColorComparisonPolicy) -> (result:
        Self)
        ensures
            result == DeviceState::fresh(capabilities, color_policy),
    {
        DeviceState {
            capabilities,
            color_policy,
            availability: Availability::Unknown,
            desired: None,
            observed: None,
            last_command: None,
            pending: None,
            in_sync: true,
        }
    }

    pub fn availability(&self) -> (availability: Availability)
        ensures
            availability == self.availability,
    {
        self.availability
    }

    pub fn desired(&self) -> (desired: Option<DeviceTarget>)
        ensures
            desired == self.desired,
    {
        self.desired
    }

    pub fn observed(&self) -> (observed: Option<DeviceTarget>)
        ensures
            observed == self.observed,
    {
        self.observed
    }

    pub fn last_command(&self) -> (last_command: Option<DeviceTarget>)
        ensures
            last_command == self.last_command,
    {
        self.last_command
    }

    pub fn pending_command(&self) -> (pending: Option<PendingCommand>)
        ensures
            pending == self.pending,
    {
        self.pending
    }

    pub fn in_sync(&self) -> (in_sync: bool)
        ensures
            in_sync == self.in_sync,
    {
        self.in_sync
    }

    /// The desired state has been observed.
    pub open spec fn settled(self) -> bool {
        synchronized(self.desired, self.observed, self.color_policy)
    }

    pub(crate) fn is_settled(&self) -> (result: bool)
        ensures
            result == self.settled(),
    {
        targets_in_sync(self.desired, self.observed, self.color_policy)
    }

    /// `target` is already desired.
    pub open spec fn desires(self, target: DeviceTarget) -> bool {
        self.desired matches Some(desired) && desired.same(target)
    }

    pub(crate) fn has_desired(&self, target: &DeviceTarget) -> (result: bool)
        ensures
            result == self.desires(*target),
    {
        match self.desired {
            Some(desired) => desired.equals(target),
            None => false,
        }
    }

    /// The state once `target` is desired.
    pub open spec fn desiring(self, target: DeviceTarget) -> DeviceState {
        DeviceState {
            desired: Some(target),
            pending: None,
            in_sync: synchronized(Some(target), self.observed, self.color_policy),
            ..self
        }
    }

    pub(crate) fn with_desired(self, target: DeviceTarget) -> (result: DeviceState)
        ensures
            result == self.desiring(target),
    {
        DeviceState {
            capabilities: self.capabilities,
            color_policy: self.color_policy,
            availability: self.availability,
            desired: Some(target),
            observed: self.observed,
            last_command: self.last_command,
            pending: None,
            in_sync: targets_in_sync(Some(target), self.observed, self.color_policy),
        }
    }
}

/// What is known of one group.
#[derive(Debug, Clone, Copy, PartialEq)]
pub struct GroupState {
    pub capabilities: Capabilities,
    pub logical_desired: Option<LightTarget>,
    pub command_target: Option<DeviceTarget>,
}

/// `target` asks for nothing.
pub open spec fn asks_nothing(target: DeviceTarget) -> bool {
    target.on is None && target.brightness is None && target.color_temperature is None
        && target.color is None
}

pub(crate) fn target_is_empty(target: DeviceTarget) -> (result: bool)
    ensures
        result == asks_nothing(target),
{
    target.on.is_none() && target.brightness.is_none() && target.color_temperature.is_none()
        && target.color.is_none()
}

/// What is known once `update` follows `previous`. A colour and a colour
/// temperature exclude each other.
pub open spec fn merged(previous: Option<DeviceTarget>, update: DeviceTarget) -> DeviceTarget {
    let previous = match previous {
        Some(previous) => previous,
        None => DeviceTarget {
            on: None,
            brightness: None,
            color_temperature: None,
            color: None,
            transition_ms: None,
        },
    };
    DeviceTarget {
        on: if update.on is Some {
            update.on
        } else {
            previous.on
        },
        brightness: if update.brightness is Some {
            update.brightness
        } else {
            previous.brightness
        },
        color_temperature: if update.color is Some {
            None
        } else if update.color_temperature is Some {
            update.color_temperature
        } else {
            previous.color_temperature
        },
        color: if update.color is Some {
            update.color
        } else if update.color_temperature is Some {
            None
        } else {
            previous.color
        },
        transition_ms: if update.transition_ms is Some {
            update.transition_ms
        } else {
            previous.transition_ms
        },
    }
}

pub(crate) fn merge_observation(previous: Option<DeviceTarget>, update: DeviceTarget) -> (result:
    DeviceTarget)
    ensures
        result == merged(previous, update),
{
    let previous = match previous {
        Some(previous) => previous,
        None => DeviceTarget {
            on: None,
            brightness: None,
            color_temperature: None,
            color: None,
            transition_ms: None,
        },
    };
    let (color_temperature, color) = if update.color.is_some() {
        (None, update.color)
    } else if update.color_temperature.is_some() {
        (update.color_temperature, None)
    } else {
        (previous.color_temperature, previous.color)
    };
    DeviceTarget {
        on: if update.on.is_some() {
            update.on
        } else {
            previous.on
        },
        brightness: if update.brightness.is_some() {
            update.brightness
        } else {
            previous.brightness
        },
        color_temperature,
        color,
        transition_ms: if update.transition_ms.is_some() {
            update.transition_ms
        } else {
            previous.transition_ms
        },
    }
}

/// What a group command leaves to be sent to one member.
pub open spec fn remainder(desired: DeviceTarget, group: DeviceTarget) -> DeviceTarget {
    let brightness = if crate::value::same_brightness(desired.brightness, group.brightness) {
        None
    } else {
        desired.brightness
    };
    let color_temperature = if crate::value::same_kelvin(
        desired.color_temperature,
        group.color_temperature,
    ) {
        None
    } else {
        desired.color_temperature
    };
    let color = if crate::value::same_color(desired.color, group.color) {
        None
    } else {
        desired.color
    };
    DeviceTarget {
        on: if desired.on == group.on {
            None
        } else {
            desired.on
        },
        brightness,
        color_temperature,
        color,
        transition_ms: if brightness is Some || color_temperature is Some || color is Some {
            desired.transition_ms
        } else {
            None
        },
    }
}

pub(crate) fn target_difference(desired: DeviceTarget, group: DeviceTarget) -> (result: DeviceTarget)
    ensures
        result == remainder(desired, group),
{
    let on = if desired.on == group.on {
        None
    } else {
        desired.on
    };
    let brightness = if crate::value::brightness_equals(desired.brightness, group.brightness) {
        None
    } else {
        desired.brightness
    };
    let color_temperature = if crate::value::kelvin_equals(
        desired.color_temperature,
        group.color_temperature,
    ) {
        None
    } else {
        desired.color_temperature
    };
    let color = if crate::value::color_equals(desired.color, group.color) {
        None
    } else {
        desired.color
    };
    let transition_ms = if brightness.is_some() || color_temperature.is_some() || color.is_some() {
        desired.transition_ms
    } else {
        None
    };
    DeviceTarget { on, brightness, color_temperature, color, transition_ms }
}

/// Everything that `desired` asks for shows in `observed`.
pub open spec fn reached(
    desired: DeviceTarget,
    observed: DeviceTarget,
    color_policy: ColorComparisonPolicy,
) -> bool {
    &&& desired.on is Some ==> observed.on == desired.on
    &&& desired.brightness matches Some(wanted) ==> {
        observed.brightness matches Some(seen) && wanted.value.difference(
            seen.value,
        ).magnitude().at_most(Double { bits: BRIGHTNESS_STEP })
    }
    &&& desired.color_temperature matches Some(wanted) ==> {
        observed.color_temperature matches Some(seen) && wanted.value.difference(
            seen.value,
        ).magnitude().at_most(wanted.value.product(Double { bits: KELVIN_TOLERANCE }))
    }
    &&& desired.color matches Some(wanted) ==> {
        observed.color matches Some(seen) && color_policy.matching(wanted, seen)
    }
}

/// Nothing is desired, or it has been observed.
pub open spec fn synchronized(
    desired: Option<DeviceTarget>,
    observed: Option<DeviceTarget>,
    color_policy: ColorComparisonPolicy,
) -> bool {
    match desired {
        None => true,
        Some(desired) => asks_nothing(desired) || (observed matches Some(observed) && reached(
            desired,
            observed,
            color_policy,
        )),
    }
}

pub fn targets_in_sync(
    desired: Option<DeviceTarget>,
    observed: Option<DeviceTarget>,
    color_policy: ColorComparisonPolicy,
) -> (result: bool)
    ensures
        result == synchronized(desired, observed, color_policy),
{
    let desired = match desired {
        Some(desired) => desired,
        None => return true,
    };
    if target_is_empty(desired) {
        return true;
    }
    let observed = match observed {
        Some(observed) => observed,
        None => return false,
    };
    if desired.on.is_some() && desired.on != observed.on {
        return false;
    }
    if let Some(wanted) = desired.brightness {
        match observed.brightness {
            Some(seen) => {
                if !wanted.value.minus(seen.value).abs().le(Double::from_bits(BRIGHTNESS_STEP)) {
                    return false;
                }
            },
            None => return false,
        }
    }
    if let Some(wanted) = desired.color_temperature {
        match observed.color_temperature {
            Some(seen) => {
                let tolerance = wanted.value.times(Double::from_bits(KELVIN_TOLERANCE));
                if !wanted.value.minus(seen.value).abs().le(tolerance) {
                    return false;
                }
            },
            None => return false,
        }
    }
    if let Some(wanted) = desired.color {
        match observed.color {
            Some(seen) => {
                if !color_policy.colors_in_sync(wanted, seen) {
                    return false;
                }
            },
            None => return false,
        }
    }
    true
}

} // verus!
