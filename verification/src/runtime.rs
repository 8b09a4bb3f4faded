//! The engine of the house: state, overlays and reconciliation driven by input
//! and time.
use crate::config::{
    CircadianSettings, MqttSettings, ReconciliationTiming, WholeHourSettings,
};
use crate::curve::{CurvePoint, TimeOfDay};
use crate::dispatch::Model;
use crate::double::Double;
use crate::input::{
    Action, ClickClassifier, Gesture, InputError, Mapping, MappingEntry, RawInputEvent,
    ScopeTarget,
};
use crate::ordered::OrderedKey;
use crate::overlay::{
    AcknowledgementSettings, OverlayDuration, OverlayEffect, OverlayError, OverlayId,
    OverlayModel, OverlayRequest, OverlaySet,
};
use crate::reconcile::{DeviceId, EntityId, ReconcileAction, ReconcileError};
use crate::reconciler::Reconciler;
use crate::solar::{ScheduleError, SolarAlmanac};
use crate::state::{
    AutomationState, ControlId, ControlState, CurveMode, CurveToggleOutcome, LocalDate,
    MonotonicTime, Scope, ScopeMembership, ScopeState, StateError,
};
use crate::topology::CurveConfiguration;
use crate::value::{Capabilities, Kelvin, KelvinRange, LayeredLightTarget, LightTarget};
use crate::zigbee2mqtt::{AdapterError, Zigbee2MqttAdapter};
use std::sync::Arc;
use vstd::prelude::*;

verus! {

/// Bits of `1000.0`.
pub const LOWEST_KELVIN: u64 = 0x408f_4000_0000_0000;

/// Bits of `40000.0`.
pub const HIGHEST_KELVIN: u64 = 0x40e3_8800_0000_0000;

/// Why the parts of a house do not fit together.
#[derive(Debug, Clone, Copy, PartialEq, Eq)]
pub enum TopologyProblem {
    MissingCurve,
    NoControllableDevice,
    NoPhysicalOwner,
    SelectionNeedsControl,
    EmptyTarget,
    DeadlineOverflow,
    SequenceExhausted,
    SchedulerInterval,
    MissingOperationIndex,
}

impl TopologyProblem {
    /// The problem in words.
    pub open spec fn described(self) -> Seq<char> {
        match self {
            TopologyProblem::MissingCurve => "scope curve is missing"@,
            TopologyProblem::NoControllableDevice =>
                "at least one controllable device is required"@,
            TopologyProblem::NoPhysicalOwner =>
                "controllable device has no configured physical owner"@,
            TopologyProblem::SelectionNeedsControl =>
                "scope selection requires a concrete control"@,
            TopologyProblem::EmptyTarget => "action target contains no physical owner"@,
            TopologyProblem::DeadlineOverflow => "adapter operation deadline overflow"@,
            TopologyProblem::SequenceExhausted => "adapter operation sequence exhausted"@,
            TopologyProblem::SchedulerInterval => "invalid scheduler interval"@,
            TopologyProblem::MissingOperationIndex =>
                "command publication lacks operation index"@,
        }
    }

    pub fn message(self) -> (text: &'static str)
        ensures
            text@ == self.described(),
    {
        match self {
            TopologyProblem::MissingCurve => "scope curve is missing",
            TopologyProblem::NoControllableDevice =>
                "at least one controllable device is required",
            TopologyProblem::NoPhysicalOwner =>
                "controllable device has no configured physical owner",
            TopologyProblem::SelectionNeedsControl =>
                "scope selection requires a concrete control",
            TopologyProblem::EmptyTarget => "action target contains no physical owner",
            TopologyProblem::DeadlineOverflow => "adapter operation deadline overflow",
            TopologyProblem::SequenceExhausted => "adapter operation sequence exhausted",
            TopologyProblem::SchedulerInterval => "invalid scheduler interval",
            TopologyProblem::MissingOperationIndex => "command publication lacks operation index",
        }
    }
}

#[derive(Debug)]
pub enum RuntimeError {
    InvalidInstant,
    InvalidTopology(TopologyProblem),
    UnknownDevice,
    UnknownControl,
    UnmappedGesture,
    Schedule(ScheduleError),
    State(StateError),
    Input(InputError),
    Overlay(OverlayError),
    Reconcile(ReconcileError),
    Adapter(AdapterError),
}

/// One moment, by the wall clock and by the monotonic clock.
#[derive(Debug, Clone, Copy, PartialEq)]
pub struct RuntimeInstant {
    pub local_date: LocalDate,
    pub local_time: TimeOfDay,
    pub monotonic: MonotonicTime,
}

impl RuntimeInstant {
    pub open spec fn wf(self) -> bool {
        self.local_date.wf() && self.local_time.wf() && self.monotonic.wf()
    }

    pub fn new(
        local_date: LocalDate,
        hour: u8,
        minute: u8,
        second: u8,
        monotonic: MonotonicTime,
    ) -> (result: Result<Self, RuntimeError>)
        ensures
            result == if hour < 24 && minute < 60 && second < 60 {
                Ok::<RuntimeInstant, RuntimeError>(
                    RuntimeInstant {
                        local_date,
                        local_time: TimeOfDay {
                            seconds: (hour * 3600 + minute * 60 + second) as u32,
                        },
                        monotonic,
                    },
                )
            } else {
                Err(RuntimeError::InvalidInstant)
            },
            local_date.wf() && monotonic.wf() ==> (result matches Ok(now) ==> now.wf()),
    {
        match TimeOfDay::from_hms(hour, minute, second) {
            Ok(local_time) => Ok(RuntimeInstant { local_date, local_time, monotonic }),
            Err(_) => Err(RuntimeError::InvalidInstant),
        }
    }
}

/// What an action did.
#[derive(Debug, Clone, Copy, PartialEq, Eq)]
pub struct ActionSummary {
    pub affected_owner_count: usize,
    pub acknowledged_owner_count: usize,
    pub recomputed_devices: usize,
    pub durable_state_changed: bool,
}

/// A light under way; `owner` is the position of the scope that rules it.
#[derive(Debug)]
pub struct DeviceRuntime {
    pub id: DeviceId,
    pub membership: ScopeMembership,
    pub capabilities: Capabilities,
    pub owner: usize,
}

/// A group under way; members are positions of lights, none for a member that is
/// no light.
#[derive(Debug)]
pub struct GroupRuntime {
    pub id: EntityId,
    pub members: Vec<Option<usize>>,
    pub shared_owner: Option<usize>,
    pub has_group_color_temperature: bool,
}

/// What does not change while the house runs. Owners are in the order of their
/// scopes, lights in the order of their names.
#[derive(Debug)]
pub struct HousePlan {
    pub owners: Vec<Scope>,
    pub owner_curves: Vec<usize>,
    pub curves: Vec<CurveConfiguration>,
    pub devices: Vec<DeviceRuntime>,
    pub aliases: Vec<(DeviceId, DeviceId)>,
    pub groups: Vec<GroupRuntime>,
    pub controls: Vec<(ControlId, Mapping)>,
    pub acknowledgement: AcknowledgementSettings,
    pub circadian: CircadianSettings,
    pub whole_hour: WholeHourSettings,
    pub reconciliation_timing: ReconciliationTiming,
    pub whole_hour_id: OverlayId,
}

impl HousePlan {
    pub open spec fn wf(self) -> bool {
        &&& self.owner_curves@.len() == self.owners@.len()
        &&& forall|k: int|
            0 <= k < self.owners@.len() ==> (#[trigger] self.owner_curves@[k]) < self.curves@.len()
        &&& forall|c: int| 0 <= c < self.curves@.len() ==> (#[trigger] self.curves@[c]).schedule.wf()
        &&& forall|i: int|
            0 <= i < self.devices@.len() ==> (#[trigger] self.devices@[i]).owner
                < self.owners@.len()
        &&& forall|g: int| 0 <= g < self.groups@.len() ==> self.group_wf(#[trigger] self.groups@[g])
        &&& forall|c: int| 0 <= c < self.controls@.len() ==> (#[trigger] self.controls@[c]).1.wf()
        &&& self.acknowledgement.wf()
        &&& self.circadian.daily_reset_time.wf()
    }

    pub open spec fn group_wf(self, group: GroupRuntime) -> bool {
        &&& group.shared_owner matches Some(owner) ==> owner < self.owners@.len()
        &&& forall|m: int|
            0 <= m < group.members@.len() ==> ((#[trigger] group.members@[m]) matches Some(i) ==> i
                < self.devices@.len())
    }

    /// What the curve of owner `k` shows.
    pub open spec fn live(self, almanac: SolarAlmanac, k: int, now: RuntimeInstant) -> Result<
        CurvePoint,
        RuntimeError,
    > {
        match self.curves@[self.owner_curves@[k] as int].schedule.sampled(
            now.local_date,
            now.local_time,
            almanac,
        ) {
            Ok(point) => Ok(point),
            Err(error) => Err(RuntimeError::Schedule(error)),
        }
    }

    /// The light of owner `k` below all overlays.
    #[verifier::opaque]
    pub open spec fn layer(
        self,
        almanac: SolarAlmanac,
        scopes: Map<Seq<u8>, ScopeState>,
        k: int,
        now: RuntimeInstant,
    ) -> Result<LayeredLightTarget, RuntimeError> {
        match self.live(almanac, k, now) {
            Ok(point) => match crate::state::layers_in(
                scopes,
                self.owners@[k],
                point,
                now.monotonic,
            ) {
                Ok(layers) => Ok(layers),
                Err(error) => Err(RuntimeError::State(error)),
            },
            Err(error) => Err(error),
        }
    }

    /// The light of the first `n` owners below all overlays.
    pub open spec fn layers(
        self,
        almanac: SolarAlmanac,
        scopes: Map<Seq<u8>, ScopeState>,
        now: RuntimeInstant,
        n: int,
    ) -> Result<Seq<LayeredLightTarget>, RuntimeError>
        decreases n,
    {
        if n <= 0 {
            Ok(Seq::empty())
        } else {
            match self.layers(almanac, scopes, now, n - 1) {
                Err(error) => Err(error),
                Ok(list) => match self.layer(almanac, scopes, n - 1, now) {
                    Err(error) => Err(error),
                    Ok(layer) => Ok(list.push(layer)),
                },
            }
        }
    }

    /// Colour temperatures that light `i` is bounded to.
    pub open spec fn range(self, i: int) -> KelvinRange {
        match self.devices@[i].capabilities.color_temperature {
            Some(range) => range,
            None => canonical_range(),
        }
    }

    fn sample(&self, almanac: &SolarAlmanac, k: usize, now: RuntimeInstant) -> (result: Result<
        CurvePoint,
        RuntimeError,
    >)
        requires
            self.wf(),
            k < self.owners@.len(),
            now.wf(),
        ensures
            result == self.live(*almanac, k as int, now),
    {
        let curve: usize = self.owner_curves[k];
        match self.curves[curve].schedule.sample(now.local_date, now.local_time, almanac) {
            Ok(point) => Ok(point),
            Err(error) => Err(RuntimeError::Schedule(error)),
        }
    }
}

/// Colour temperatures of a target that no device bounds.
pub open spec fn canonical_range() -> KelvinRange {
    KelvinRange {
        min: Kelvin { value: Double { bits: LOWEST_KELVIN } },
        max: Kelvin { value: Double { bits: HIGHEST_KELVIN } },
    }
}

fn widest_range() -> (range: KelvinRange)
    ensures
        range == canonical_range(),
{
    KelvinRange {
        min: Kelvin { value: Double::from_bits(LOWEST_KELVIN) },
        max: Kelvin { value: Double::from_bits(HIGHEST_KELVIN) },
    }
}

/// A change of a number that reaches a threshold.
pub open spec fn moved(previous: Double, next: Double, threshold: Double) -> bool {
    threshold.at_most(previous.difference(next).magnitude())
}

/// A target differs enough from the previous one to be sent.
pub open spec fn exceeds(
    previous: LightTarget,
    next: LightTarget,
    brightness_threshold: Double,
    kelvin_threshold: Double,
) -> bool {
    ||| previous.on != next.on
    ||| !crate::value::same_color(previous.color, next.color)
    ||| previous.transition_ms != next.transition_ms
    ||| match (previous.brightness, next.brightness) {
        (Some(a), Some(b)) => moved(a.value, b.value, brightness_threshold),
        (None, None) => false,
        _ => true,
    }
    ||| match (previous.color_temperature, next.color_temperature) {
        (Some(a), Some(b)) => moved(a.value, b.value, kelvin_threshold),
        (None, None) => false,
        _ => true,
    }
}

pub fn target_change_exceeds_threshold(
    previous: &LightTarget,
    next: &LightTarget,
    brightness_threshold: Double,
    color_temperature_threshold_kelvin: Double,
) -> (result: bool)
    ensures
        result == exceeds(
            *previous,
            *next,
            brightness_threshold,
            color_temperature_threshold_kelvin,
        ),
{
    let light = match (previous.brightness, next.brightness) {
        (Some(a), Some(b)) => brightness_threshold.le(a.get().minus(b.get()).abs()),
        (None, None) => false,
        _ => true,
    };
    let warmth = match (previous.color_temperature, next.color_temperature) {
        (Some(a), Some(b)) => color_temperature_threshold_kelvin.le(a.get().minus(b.get()).abs()),
        (None, None) => false,
        _ => true,
    };
    previous.on != next.on || !crate::value::color_equals(previous.color, next.color)
        || previous.transition_ms != next.transition_ms || light || warmth
}

/// Overlay sets on the way through a composition, and the targets so far.
#[verifier::ext_equal]
pub struct Composition {
    pub overlays: Seq<OverlayModel>,
    pub targets: Seq<LightTarget>,
    pub fault: Option<RuntimeError>,
}

impl Composition {
    /// Composes overlay set `k` once more.
    pub open spec fn then_composed(
        self,
        k: int,
        layer: LayeredLightTarget,
        now: MonotonicTime,
        range: KelvinRange,
    ) -> Composition {
        let (next, result) = self.overlays[k].composed(layer, now, range);
        let overlays = self.overlays.update(k, next);
        match result {
            Ok(target) => Composition { overlays, targets: self.targets.push(target), fault: None },
            Err(error) => Composition {
                overlays,
                targets: self.targets,
                fault: Some(RuntimeError::Overlay(error)),
            },
        }
    }
}

/// The targets of the first `n` owners, without device bounds.
pub open spec fn owners_composed(
    overlays: Seq<OverlayModel>,
    layers: Seq<LayeredLightTarget>,
    now: MonotonicTime,
    n: int,
) -> Composition
    decreases n,
{
    if n <= 0 {
        Composition { overlays, targets: Seq::empty(), fault: None }
    } else {
        let before = owners_composed(overlays, layers, now, n - 1);
        if before.fault is Some {
            before
        } else {
            before.then_composed(n - 1, layers[n - 1], now, canonical_range())
        }
    }
}

impl HousePlan {
    /// The targets of the first `n` lights.
    pub open spec fn devices_composed(
        self,
        overlays: Seq<OverlayModel>,
        layers: Seq<LayeredLightTarget>,
        now: MonotonicTime,
        n: int,
    ) -> Composition
        decreases n,
    {
        if n <= 0 {
            Composition { overlays, targets: Seq::empty(), fault: None }
        } else {
            let before = self.devices_composed(overlays, layers, now, n - 1);
            let owner = self.devices@[n - 1].owner as int;
            if before.fault is Some {
                before
            } else {
                before.then_composed(owner, layers[owner], now, self.range(n - 1))
            }
        }
    }
}

pub open spec fn overlay_models(overlays: Seq<OverlaySet>) -> Seq<OverlayModel> {
    Seq::new(overlays.len(), |k: int| overlays[k].model())
}

fn compose_one(
    overlays: &mut Vec<OverlaySet>,
    k: usize,
    layer: LayeredLightTarget,
    now: MonotonicTime,
    range: KelvinRange,
) -> (result: Result<LightTarget, OverlayError>)
    requires
        k < old(overlays)@.len(),
    ensures
        ({
            let (next, outcome) = old(overlays)@[k as int].model().composed(layer, now, range);
            &&& overlay_models(final(overlays)@) == overlay_models(old(overlays)@).update(
                k as int,
                next,
            )
            &&& result == outcome
        }),
{
    let ghost before = overlays@;
    let result = overlays[k].compose(layer, now, range);
    assert(overlay_models(overlays@) =~= overlay_models(before).update(
        k as int,
        overlays@[k as int].model(),
    ));
    result
}

/// Everything of the engine that changes.
#[verifier::ext_equal]
pub struct EngineModel {
    pub scopes: Map<Seq<u8>, ScopeState>,
    pub controls: Map<Seq<u8>, ControlState>,
    pub last_reset_date: Option<LocalDate>,
    pub overlays: Seq<OverlayModel>,
    pub reconciler: Model,
    pub last_targets: Seq<Option<LightTarget>>,
    pub last_reconciled: Seq<Option<MonotonicTime>>,
    pub pending: Seq<ReconcileAction>,
}

/// Desired states on their way to the reconciler.
#[verifier::ext_equal]
pub struct Sending {
    pub reconciler: Model,
    pub actions: Seq<ReconcileAction>,
    pub grouped: Seq<bool>,
    pub fault: Option<RuntimeError>,
}

impl Sending {
    pub open spec fn start(reconciler: Model, devices: nat) -> Sending {
        Sending {
            reconciler,
            actions: Seq::empty(),
            grouped: Seq::new(devices, |i: int| false),
            fault: None,
        }
    }

    /// One operation of the reconciler.
    pub open spec fn with_step(self, step: crate::dispatch::Step) -> Sending {
        match step {
            Ok((next, actions)) => Sending {
                reconciler: next,
                actions: self.actions + actions,
                ..self
            },
            Err(error) => Sending { fault: Some(RuntimeError::Reconcile(error)), ..self },
        }
    }
}

impl GroupRuntime {
    /// Some member is marked.
    pub open spec fn has_marked(self, mask: Seq<bool>) -> bool {
        exists|m: int|
            0 <= m < self.members@.len() && ((#[trigger] self.members@[m]) matches Some(i)
                && mask[i as int])
    }

    /// Light `i` is a member.
    pub open spec fn holds(self, i: int) -> bool {
        exists|m: int|
            0 <= m < self.members@.len() && ((#[trigger] self.members@[m]) matches Some(k) && k == i)
    }

    /// The mask with all members marked too.
    pub open spec fn marking(self, mask: Seq<bool>) -> Seq<bool> {
        Seq::new(mask.len(), |i: int| mask[i] || self.holds(i))
    }

    /// First member that is a light among the members from `m` on.
    pub open spec fn first_light(self, m: int) -> Option<usize>
        decreases self.members@.len() - m,
    {
        if m >= self.members@.len() {
            None
        } else if self.members@[m] is Some {
            self.members@[m]
        } else {
            self.first_light(m + 1)
        }
    }

    /// Two targets that one command to the group can bring about.
    pub open spec fn alike(self, a: LightTarget, b: LightTarget) -> bool {
        &&& a.on == b.on
        &&& crate::value::same_brightness(a.brightness, b.brightness)
        &&& crate::value::same_color(a.color, b.color)
        &&& a.transition_ms == b.transition_ms
        &&& self.has_group_color_temperature ==> crate::value::same_kelvin(
            a.color_temperature,
            b.color_temperature,
        )
    }

    /// Every member is a light of `owner` whose target is like that of `first`.
    pub open spec fn united(
        self,
        devices: Seq<DeviceRuntime>,
        targets: Seq<LightTarget>,
        owner: usize,
        first: usize,
    ) -> bool {
        forall|m: int|
            0 <= m < self.members@.len() ==> ((#[trigger] self.members@[m]) matches Some(i)
                && devices[i as int].owner == owner && self.alike(
                targets[i as int],
                targets[first as int],
            ))
    }

    fn is_marked(&self, mask: &Vec<bool>) -> (result: bool)
        requires
            forall|m: int|
                0 <= m < self.members@.len() ==> ((#[trigger] self.members@[m]) matches Some(i)
                    ==> i < mask@.len()),
        ensures
            result == self.has_marked(mask@),
    {
        let mut m: usize = 0;
        while m < self.members.len()
            invariant
                m <= self.members@.len(),
                forall|m: int|
                    0 <= m < self.members@.len() ==> ((#[trigger] self.members@[m]) matches Some(i)
                        ==> i < mask@.len()),
                forall|l: int|
                    0 <= l < m ==> !((#[trigger] self.members@[l]) matches Some(i)
                        && mask@[i as int]),
            decreases self.members@.len() - m,
        {
            if let Some(i) = self.members[m] {
                assert(self.members@[m as int] == Some(i));
                if mask[i] {
                    assert(self.members@[m as int] matches Some(i) && mask@[i as int]);
                    return true;
                }
            }
            m = m + 1;
        }
        false
    }

    fn mark(&self, mask: &mut Vec<bool>)
        requires
            forall|m: int|
                0 <= m < self.members@.len() ==> ((#[trigger] self.members@[m]) matches Some(i)
                    ==> i < old(mask)@.len()),
        ensures
            final(mask)@ == self.marking(old(mask)@),
    {
        let ghost before = mask@;
        let mut m: usize = 0;
        while m < self.members.len()
            invariant
                m <= self.members@.len(),
                mask@.len() == before.len(),
                forall|m: int|
                    0 <= m < self.members@.len() ==> ((#[trigger] self.members@[m]) matches Some(i)
                        ==> i < before.len()),
                forall|i: int|
                    0 <= i < before.len() ==> (#[trigger] mask@[i] == (before[i] || exists|l: int|
                        0 <= l < m && ((#[trigger] self.members@[l]) matches Some(k) && k == i))),
            decreases self.members@.len() - m,
        {
            let ghost last = mask@;
            if let Some(k) = self.members[m] {
                assert(self.members@[m as int] == Some(k));
                mask.set(k, true);
            }
            proof {
                assert forall|i: int| 0 <= i < before.len() implies (#[trigger] mask@[i] == (
                before[i] || exists|l: int|
                    0 <= l < m + 1 && ((#[trigger] self.members@[l]) matches Some(k) && k == i))) by {
                    assert(last[i] == (before[i] || exists|l: int|
                        0 <= l < m && ((#[trigger] self.members@[l]) matches Some(k) && k == i)));
                    if self.members@[m as int] matches Some(k) && k == i {
                        assert(mask@[i]);
                    }
                    if exists|l: int|
                        0 <= l < m && ((#[trigger] self.members@[l]) matches Some(k) && k == i) {
                        let l = choose|l: int|
                            0 <= l < m && ((#[trigger] self.members@[l]) matches Some(k) && k == i);
                        assert(self.members@[l] matches Some(k) && k == i);
                        assert(mask@[i]);
                    }
                }
            }
            m = m + 1;
        }
        assert(mask@ =~= self.marking(before));
    }

    fn find_light(&self) -> (result: Option<usize>)
        ensures
            result == self.first_light(0),
            result matches Some(i) ==> exists|m: int|
                0 <= m < self.members@.len() && (#[trigger] self.members@[m]) == Some(i),
    {
        let mut m: usize = 0;
        while m < self.members.len()
            invariant
                m <= self.members@.len(),
                self.first_light(0) == self.first_light(m as int),
            decreases self.members@.len() - m,
        {
            if let Some(i) = self.members[m] {
                assert(self.members@[m as int] == Some(i));
                return Some(i);
            }
            m = m + 1;
        }
        None
    }

    fn is_united(
        &self,
        devices: &Vec<DeviceRuntime>,
        targets: &Vec<LightTarget>,
        owner: usize,
        first: usize,
    ) -> (result: bool)
        requires
            targets@.len() == devices@.len(),
            first < targets@.len(),
            forall|m: int|
                0 <= m < self.members@.len() ==> ((#[trigger] self.members@[m]) matches Some(i)
                    ==> i < devices@.len()),
        ensures
            result == self.united(devices@, targets@, owner, first),
    {
        let expected = targets[first];
        let mut m: usize = 0;
        while m < self.members.len()
            invariant
                m <= self.members@.len(),
                targets@.len() == devices@.len(),
                expected == targets@[first as int],
                forall|m: int|
                    0 <= m < self.members@.len() ==> ((#[trigger] self.members@[m]) matches Some(i)
                        ==> i < devices@.len()),
                forall|l: int|
                    0 <= l < m ==> ((#[trigger] self.members@[l]) matches Some(i)
                        && devices@[i as int].owner == owner && self.alike(
                        targets@[i as int],
                        expected,
                    )),
            decreases self.members@.len() - m,
        {
            let ghost member = self.members@[m as int];
            match self.members[m] {
                Some(i) => {
                    let target = targets[i];
                    if devices[i].owner != owner || target.on != expected.on
                        || !crate::value::brightness_equals(target.brightness, expected.brightness)
                        || !crate::value::color_equals(target.color, expected.color)
                        || target.transition_ms != expected.transition_ms || (
                    self.has_group_color_temperature && !crate::value::kelvin_equals(
                        target.color_temperature,
                        expected.color_temperature,
                    )) {
                        assert(member == Some(i));
                        return false;
                    }
                },
                None => {
                    assert(member is None);
                    return false;
                },
            }
            m = m + 1;
        }
        true
    }
}

/// The group is to show a target.
#[verifier::opaque]
pub open spec fn group_asked(
    model: Model,
    id: EntityId,
    target: LightTarget,
    now: MonotonicTime,
) -> crate::dispatch::Step {
    model.transacted(
        now,
        model.of_group(id, model.group_desired(model.group_place(id), target, now)),
    )
}

/// The group is no longer to show a target.
#[verifier::opaque]
pub open spec fn group_released(
    model: Model,
    id: EntityId,
    now: MonotonicTime,
) -> crate::dispatch::Step {
    model.transacted(now, model.of_group(id, model.group_cleared(model.group_place(id), now)))
}

/// The light is to show a target.
#[verifier::opaque]
pub open spec fn light_asked(
    model: Model,
    id: DeviceId,
    target: LightTarget,
    now: MonotonicTime,
) -> crate::dispatch::Step {
    model.transacted(now, model.of_device(id, model.desired(model.place(id), target, now)))
}

/// The lights are to be told again what they should show.
#[verifier::opaque]
pub open spec fn lights_refreshed(
    model: Model,
    ids: Seq<DeviceId>,
    now: MonotonicTime,
) -> crate::dispatch::Step {
    model.transacted(now, model.refreshed(ids, now))
}

fn ask_group(
    reconciler: &mut Reconciler,
    id: &EntityId,
    target: LightTarget,
    now: MonotonicTime,
) -> (result: Result<Vec<ReconcileAction>, ReconcileError>)
    requires
        old(reconciler).wf(),
    ensures
        crate::reconciler::performed(
            group_asked(old(reconciler)@, *id, target, now),
            old(reconciler)@,
            final(reconciler)@,
            result,
        ),
        final(reconciler).wf(),
{
    proof {
        reveal(group_asked);
    }
    reconciler.set_group_desired(id, target, now)
}

fn release_group(reconciler: &mut Reconciler, id: &EntityId, now: MonotonicTime) -> (result: Result<
    Vec<ReconcileAction>,
    ReconcileError,
>)
    requires
        old(reconciler).wf(),
    ensures
        crate::reconciler::performed(
            group_released(old(reconciler)@, *id, now),
            old(reconciler)@,
            final(reconciler)@,
            result,
        ),
        final(reconciler).wf(),
{
    proof {
        reveal(group_released);
    }
    reconciler.clear_group_desired(id, now)
}

fn ask_light(
    reconciler: &mut Reconciler,
    id: &DeviceId,
    target: LightTarget,
    now: MonotonicTime,
) -> (result: Result<Vec<ReconcileAction>, ReconcileError>)
    requires
        old(reconciler).wf(),
    ensures
        crate::reconciler::performed(
            light_asked(old(reconciler)@, *id, target, now),
            old(reconciler)@,
            final(reconciler)@,
            result,
        ),
        final(reconciler).wf(),
{
    proof {
        reveal(light_asked);
    }
    reconciler.set_device_desired(id, target, now)
}

fn refresh_lights(reconciler: &mut Reconciler, ids: &Vec<DeviceId>, now: MonotonicTime) -> (result:
    Result<Vec<ReconcileAction>, ReconcileError>)
    requires
        old(reconciler).wf(),
    ensures
        crate::reconciler::performed(
            lights_refreshed(old(reconciler)@, ids@, now),
            old(reconciler)@,
            final(reconciler)@,
            result,
        ),
        final(reconciler).wf(),
{
    proof {
        reveal(lights_refreshed);
    }
    reconciler.reissue(ids, now)
}

impl HousePlan {
    /// What the change asks of group `g`.
    pub open spec fn group_sent(
        self,
        sending: Sending,
        g: int,
        logical: Seq<LightTarget>,
        targets: Seq<LightTarget>,
        update: Seq<bool>,
        now: MonotonicTime,
    ) -> Sending {
        let group = self.groups@[g];
        let model = sending.reconciler;
        let cleared = sending.with_step(group_released(model, group.id, now));
        match group.shared_owner {
            None => cleared,
            Some(owner) => match group.first_light(0) {
                None => sending,
                Some(first) => if group.united(self.devices@, targets, owner, first) {
                    let sent = if group.has_marked(update) {
                        sending.with_step(
                            group_asked(model, group.id, logical[owner as int], now),
                        )
                    } else {
                        sending
                    };
                    if sent.fault is Some {
                        sent
                    } else {
                        Sending { grouped: group.marking(sent.grouped), ..sent }
                    }
                } else {
                    cleared
                },
            },
        }
    }

    pub open spec fn groups_sent(
        self,
        sending: Sending,
        logical: Seq<LightTarget>,
        targets: Seq<LightTarget>,
        update: Seq<bool>,
        now: MonotonicTime,
        n: int,
    ) -> Sending
        decreases n,
    {
        if n <= 0 {
            sending
        } else {
            let before = self.groups_sent(sending, logical, targets, update, now, n - 1);
            if before.fault is Some {
                before
            } else {
                self.group_sent(before, n - 1, logical, targets, update, now)
            }
        }
    }

    /// What the change asks of the first `n` lights that no group speaks for.
    pub open spec fn lights_sent(
        self,
        sending: Sending,
        targets: Seq<LightTarget>,
        update: Seq<bool>,
        now: MonotonicTime,
        n: int,
    ) -> Sending
        decreases n,
    {
        if n <= 0 {
            sending
        } else {
            let before = self.lights_sent(sending, targets, update, now, n - 1);
            let model = before.reconciler;
            let id = self.devices@[n - 1].id;
            if before.fault is Some || before.grouped[n - 1] || !update[n - 1] {
                before
            } else {
                before.with_step(light_asked(model, id, targets[n - 1], now))
            }
        }
    }

    /// Lights whose target changed enough since it was last sent.
    pub open spec fn changed(
        self,
        last_targets: Seq<Option<LightTarget>>,
        targets: Seq<LightTarget>,
        force: bool,
    ) -> Seq<bool> {
        Seq::new(
            targets.len(),
            |i: int|
                force || match last_targets[i] {
                    Some(previous) => exceeds(
                        previous,
                        targets[i],
                        self.circadian.brightness_change_threshold,
                        self.circadian.color_temperature_change_threshold_kelvin,
                    ),
                    None => true,
                },
        )
    }

    /// Lights that have not been reconciled for too long.
    pub open spec fn stale(
        self,
        last_reconciled: Seq<Option<MonotonicTime>>,
        now: MonotonicTime,
        force: bool,
    ) -> Seq<bool> {
        Seq::new(
            last_reconciled.len(),
            |i: int|
                !force && (last_reconciled[i] matches Some(previous)
                    && self.circadian.maximum_refresh_seconds.at_most(
                    now.value.difference(previous.value),
                )),
        )
    }

    /// Names of the marked lights among the first `n`.
    pub open spec fn marked_ids(self, mask: Seq<bool>, n: int) -> Seq<DeviceId>
        decreases n,
    {
        if n <= 0 {
            Seq::empty()
        } else {
            let before = self.marked_ids(mask, n - 1);
            if mask[n - 1] {
                before.push(self.devices@[n - 1].id)
            } else {
                before
            }
        }
    }
}

/// Marked entries replaced.
pub open spec fn marked_with<T>(
    entries: Seq<Option<T>>,
    mask: Seq<bool>,
    values: Seq<T>,
) -> Seq<Option<T>> {
    Seq::new(
        entries.len(),
        |i: int|
            if mask[i] {
                Some(values[i])
            } else {
                entries[i]
            },
    )
}

/// Marked entries set to one value.
pub open spec fn marked_as<T>(entries: Seq<Option<T>>, mask: Seq<bool>, value: T) -> Seq<
    Option<T>,
> {
    Seq::new(
        entries.len(),
        |i: int|
            if mask[i] {
                Some(value)
            } else {
                entries[i]
            },
    )
}

/// What an operation of the engine leads to: the engine after it, and the actions
/// for the devices or the error.
pub type Recomputed = (EngineModel, Result<Seq<ReconcileAction>, RuntimeError>);

impl EngineModel {
    /// The lights and groups are told what changed.
    pub open spec fn sent(
        self,
        plan: HousePlan,
        logical: Seq<LightTarget>,
        targets: Seq<LightTarget>,
        now: MonotonicTime,
        force: bool,
    ) -> Recomputed {
        let count = plan.devices@.len() as int;
        let changed = plan.changed(self.last_targets, targets, force);
        let stale = plan.stale(self.last_reconciled, now, force);
        let update = crate::dispatch::either(changed, stale);
        if !crate::dispatch::any(changed) && crate::dispatch::any(stale) {
            match lights_refreshed(self.reconciler, plan.marked_ids(stale, count), now) {
                Ok((reconciler, actions)) => (
                    EngineModel {
                        reconciler,
                        last_reconciled: marked_as(self.last_reconciled, stale, now),
                        ..self
                    },
                    Ok(actions),
                ),
                Err(error) => (self, Err(RuntimeError::Reconcile(error))),
            }
        } else {
            let grouped = plan.groups_sent(
                Sending::start(self.reconciler, plan.devices@.len()),
                logical,
                targets,
                update,
                now,
                plan.groups@.len() as int,
            );
            let done = if grouped.fault is Some {
                grouped
            } else {
                plan.lights_sent(grouped, targets, update, now, count)
            };
            match done.fault {
                Some(error) => (EngineModel { reconciler: done.reconciler, ..self }, Err(error)),
                None => (
                    EngineModel {
                        reconciler: done.reconciler,
                        last_targets: marked_with(self.last_targets, update, targets),
                        last_reconciled: marked_as(self.last_reconciled, update, now),
                        ..self
                    },
                    Ok(done.actions),
                ),
            }
        }
    }

    /// Every target computed anew and what changed sent on; with `force` all of
    /// it.
    pub open spec fn recomputed(
        self,
        plan: HousePlan,
        almanac: SolarAlmanac,
        now: RuntimeInstant,
        force: bool,
    ) -> Recomputed {
        match plan.layers(almanac, self.scopes, now, plan.owners@.len() as int) {
            Err(error) => (self, Err(error)),
            Ok(layers) => {
                let logical = owners_composed(
                    self.overlays,
                    layers,
                    now.monotonic,
                    plan.owners@.len() as int,
                );
                if logical.fault is Some {
                    (EngineModel { overlays: logical.overlays, ..self }, Err(logical.fault->0))
                } else {
                    let targets = plan.devices_composed(
                        logical.overlays,
                        layers,
                        now.monotonic,
                        plan.devices@.len() as int,
                    );
                    let next = EngineModel { overlays: targets.overlays, ..self };
                    if targets.fault is Some {
                        (next, Err(targets.fault->0))
                    } else {
                        next.sent(plan, logical.targets, targets.targets, now.monotonic, force)
                    }
                }
            },
        }
    }

    /// The actions wait until they are taken.
    pub open spec fn queued(self, actions: Seq<ReconcileAction>) -> EngineModel {
        EngineModel { pending: self.pending + actions, ..self }
    }
}

/// A house at work.
pub struct HouseEngine {
    pub plan: Arc<HousePlan>,
    pub adapter: Arc<Zigbee2MqttAdapter>,
    pub mqtt: Arc<MqttSettings>,
    pub almanac: Arc<SolarAlmanac>,
    pub state: AutomationState,
    pub startup_state_changed: bool,
    pub overlays: Vec<OverlaySet>,
    pub classifier: ClickClassifier,
    pub reconciler: Reconciler,
    pub last_targets: Vec<Option<LightTarget>>,
    pub last_reconciled_at: Vec<Option<MonotonicTime>>,
    pub pending_actions: Vec<ReconcileAction>,
}

impl HouseEngine {
    pub open spec fn view(&self) -> EngineModel {
        EngineModel {
            scopes: self.state.scopes@,
            controls: self.state.controls@,
            last_reset_date: self.state.last_reset_date,
            overlays: overlay_models(self.overlays@),
            reconciler: self.reconciler@,
            last_targets: self.last_targets@,
            last_reconciled: self.last_reconciled_at@,
            pending: self.pending_actions@,
        }
    }

    pub open spec fn wf(self) -> bool {
        &&& self.plan.wf()
        &&& self.adapter.wf()
        &&& self.reconciler.wf()
        &&& self.overlays@.len() == self.plan.owners@.len()
        &&& self.last_targets@.len() == self.plan.devices@.len()
        &&& self.last_reconciled_at@.len() == self.plan.devices@.len()
    }

    /// What is set up stays as it was.
    pub open spec fn same_house(self, other: HouseEngine) -> bool {
        &&& self.plan == other.plan
        &&& self.adapter == other.adapter
        &&& self.mqtt == other.mqtt
        &&& self.almanac == other.almanac
        &&& self.startup_state_changed == other.startup_state_changed
    }

    /// The click classifier stays as it was.
    pub open spec fn same_clicks(self, other: HouseEngine) -> bool {
        &&& self.classifier.window == other.classifier.window
        &&& self.classifier.hold == other.classifier.hold
        &&& self.classifier.pending.pairs() == other.classifier.pending.pairs()
        &&& self.classifier.last_observed == other.classifier.last_observed
    }
}

/// A composition after a fault is over.
proof fn lemma_owners_fault(
    overlays: Seq<OverlayModel>,
    layers: Seq<LayeredLightTarget>,
    now: MonotonicTime,
    m: int,
    n: int,
)
    requires
        0 <= m <= n,
        owners_composed(overlays, layers, now, m).fault is Some,
    ensures
        owners_composed(overlays, layers, now, n) == owners_composed(overlays, layers, now, m),
    decreases n,
{
    if m < n {
        lemma_owners_fault(overlays, layers, now, m, n - 1);
    }
}

proof fn lemma_devices_fault(
    plan: &HousePlan,
    overlays: Seq<OverlayModel>,
    layers: Seq<LayeredLightTarget>,
    now: MonotonicTime,
    m: int,
    n: int,
)
    requires
        0 <= m <= n,
        plan.devices_composed(overlays, layers, now, m).fault is Some,
    ensures
        plan.devices_composed(overlays, layers, now, n) == plan.devices_composed(
            overlays,
            layers,
            now,
            m,
        ),
    decreases n,
{
    if m < n {
        lemma_devices_fault(plan, overlays, layers, now, m, n - 1);
    }
}

proof fn lemma_layers_fault(
    plan: &HousePlan,
    almanac: &SolarAlmanac,
    scopes: Map<Seq<u8>, ScopeState>,
    now: RuntimeInstant,
    m: int,
    n: int,
)
    requires
        0 <= m <= n,
        plan.layers(*almanac, scopes, now, m) is Err,
    ensures
        plan.layers(*almanac, scopes, now, n) == plan.layers(*almanac, scopes, now, m),
    decreases n,
{
    if m < n {
        lemma_layers_fault(plan, almanac, scopes, now, m, n - 1);
    }
}

/// The result tells of the composition.
pub open spec fn composes(
    composition: Composition,
    overlays: Seq<OverlaySet>,
    result: Result<Vec<LightTarget>, RuntimeError>,
) -> bool {
    &&& overlay_models(overlays) == composition.overlays
    &&& match composition.fault {
        Some(error) => result == Err::<Vec<LightTarget>, RuntimeError>(error),
        None => result matches Ok(targets) && targets@ == composition.targets,
    }
}

fn compose_owners(
    overlays: &mut Vec<OverlaySet>,
    layers: &Vec<LayeredLightTarget>,
    now: MonotonicTime,
) -> (result: Result<Vec<LightTarget>, RuntimeError>)
    requires
        layers@.len() == old(overlays)@.len(),
    ensures
        composes(
            owners_composed(
                overlay_models(old(overlays)@),
                layers@,
                now,
                layers@.len() as int,
            ),
            final(overlays)@,
            result,
        ),
        final(overlays)@.len() == old(overlays)@.len(),
{
    let ghost before = overlay_models(overlays@);
    let ghost count = layers@.len() as int;
    let mut targets: Vec<LightTarget> = Vec::new();
    let mut k: usize = 0;
    while k < layers.len()
        invariant
            k <= layers@.len(),
            count == layers@.len(),
            overlays@.len() == count,
            before.len() == count,
            old(overlays)@.len() == count,
            before == overlay_models(old(overlays)@),
            owners_composed(before, layers@, now, k as int).fault is None,
            owners_composed(before, layers@, now, k as int).overlays == overlay_models(overlays@),
            owners_composed(before, layers@, now, k as int).targets == targets@,
        decreases count - k,
    {
        let ghost last = overlays@;
        assert(overlay_models(last)[k as int] == last[k as int].model());
        let result = compose_one(overlays, k, layers[k], now, widest_range());
        assert(overlays@.len() == overlay_models(overlays@).len());
        match result {
            Ok(target) => {
                targets.push(target);
            },
            Err(error) => {
                proof {
                    lemma_owners_fault(before, layers@, now, k + 1, count);
                }
                return Err(RuntimeError::Overlay(error));
            },
        }
        k = k + 1;
    }
    Ok(targets)
}

fn compose_devices(
    plan: &HousePlan,
    overlays: &mut Vec<OverlaySet>,
    layers: &Vec<LayeredLightTarget>,
    now: MonotonicTime,
) -> (result: Result<Vec<LightTarget>, RuntimeError>)
    requires
        plan.wf(),
        layers@.len() == old(overlays)@.len(),
        layers@.len() == plan.owners@.len(),
    ensures
        composes(
            plan.devices_composed(
                overlay_models(old(overlays)@),
                layers@,
                now,
                plan.devices@.len() as int,
            ),
            final(overlays)@,
            result,
        ),
        final(overlays)@.len() == old(overlays)@.len(),
{
    let ghost before = overlay_models(overlays@);
    let ghost count = plan.devices@.len() as int;
    let mut targets: Vec<LightTarget> = Vec::new();
    let mut i: usize = 0;
    while i < plan.devices.len()
        invariant
            i <= count,
            plan.wf(),
            count == plan.devices@.len(),
            layers@.len() == plan.owners@.len(),
            overlays@.len() == layers@.len(),
            before.len() == layers@.len(),
            old(overlays)@.len() == layers@.len(),
            before == overlay_models(old(overlays)@),
            plan.devices_composed(before, layers@, now, i as int).fault is None,
            plan.devices_composed(before, layers@, now, i as int).overlays == overlay_models(
                overlays@,
            ),
            plan.devices_composed(before, layers@, now, i as int).targets == targets@,
        decreases count - i,
    {
        let ghost last = overlays@;
        let owner: usize = plan.devices[i].owner;
        let range = match plan.devices[i].capabilities.color_temperature {
            Some(range) => range,
            None => widest_range(),
        };
        assert(plan.devices@[i as int].owner < plan.owners@.len());
        assert(overlay_models(last)[owner as int] == last[owner as int].model());
        let result = compose_one(overlays, owner, layers[owner], now, range);
        assert(overlays@.len() == overlay_models(overlays@).len());
        match result {
            Ok(target) => {
                targets.push(target);
            },
            Err(error) => {
                proof {
                    lemma_devices_fault(plan, before, layers@, now, i + 1, count);
                }
                return Err(RuntimeError::Overlay(error));
            },
        }
        i = i + 1;
    }
    Ok(targets)
}

proof fn lemma_groups_fault(
    plan: &HousePlan,
    sending: Sending,
    logical: Seq<LightTarget>,
    targets: Seq<LightTarget>,
    update: Seq<bool>,
    now: MonotonicTime,
    m: int,
    n: int,
)
    requires
        0 <= m <= n,
        plan.groups_sent(sending, logical, targets, update, now, m).fault is Some,
    ensures
        plan.groups_sent(sending, logical, targets, update, now, n) == plan.groups_sent(
            sending,
            logical,
            targets,
            update,
            now,
            m,
        ),
    decreases n,
{
    if m < n {
        lemma_groups_fault(plan, sending, logical, targets, update, now, m, n - 1);
    }
}

proof fn lemma_lights_fault(
    plan: &HousePlan,
    sending: Sending,
    targets: Seq<LightTarget>,
    update: Seq<bool>,
    now: MonotonicTime,
    m: int,
    n: int,
)
    requires
        0 <= m <= n,
        plan.lights_sent(sending, targets, update, now, m).fault is Some,
    ensures
        plan.lights_sent(sending, targets, update, now, n) == plan.lights_sent(
            sending,
            targets,
            update,
            now,
            m,
        ),
    decreases n,
{
    if m < n {
        lemma_lights_fault(plan, sending, targets, update, now, m, n - 1);
    }
}

/// What is on its way, together with the actions so far.
struct Outbox {
    actions: Vec<ReconcileAction>,
    grouped: Vec<bool>,
}

impl Outbox {
    spec fn with(&self, reconciler: Model) -> Sending {
        Sending {
            reconciler,
            actions: self.actions@,
            grouped: self.grouped@,
            fault: None,
        }
    }

    fn extend(&mut self, more: Vec<ReconcileAction>)
        ensures
            final(self).actions@ == old(self).actions@ + more@,
            final(self).grouped == old(self).grouped,
    {
        let mut list = more;
        self.actions.append(&mut list);
    }
}

/// The result tells of the sending.
spec fn sends(
    sending: Sending,
    reconciler: Model,
    outbox: Outbox,
    result: Result<(), RuntimeError>,
) -> bool {
    &&& sending.reconciler == reconciler
    &&& match sending.fault {
        Some(error) => result == Err::<(), RuntimeError>(error),
        None => result is Ok && sending == outbox.with(reconciler),
    }
}

fn send_group(
    plan: &HousePlan,
    reconciler: &mut Reconciler,
    outbox: &mut Outbox,
    g: usize,
    logical: &Vec<LightTarget>,
    targets: &Vec<LightTarget>,
    update: &Vec<bool>,
    now: MonotonicTime,
) -> (result: Result<(), RuntimeError>)
    requires
        plan.wf(),
        old(reconciler).wf(),
        g < plan.groups@.len(),
        logical@.len() == plan.owners@.len(),
        targets@.len() == plan.devices@.len(),
        update@.len() == plan.devices@.len(),
        old(outbox).grouped@.len() == plan.devices@.len(),
    ensures
        sends(
            plan.group_sent(
                old(outbox).with(old(reconciler)@),
                g as int,
                logical@,
                targets@,
                update@,
                now,
            ),
            final(reconciler)@,
            *final(outbox),
            result,
        ),
        final(reconciler).wf(),
        final(outbox).grouped@.len() == plan.devices@.len(),
{
    let group = &plan.groups[g];
    assert(plan.group_wf(plan.groups@[g as int]));
    let united = match group.shared_owner {
        None => None,
        Some(owner) => match group.find_light() {
            None => return Ok(()),
            Some(first) => {
                if group.is_united(&plan.devices, targets, owner, first) {
                    Some(owner)
                } else {
                    None
                }
            },
        },
    };
    match united {
        None => match release_group(reconciler, &group.id, now) {
            Ok(actions) => {
                outbox.extend(actions);
                Ok(())
            },
            Err(error) => Err(RuntimeError::Reconcile(error)),
        },
        Some(owner) => {
            if group.is_marked(update) {
                match ask_group(reconciler, &group.id, logical[owner], now) {
                    Ok(actions) => {
                        outbox.extend(actions);
                    },
                    Err(error) => return Err(RuntimeError::Reconcile(error)),
                }
            }
            group.mark(&mut outbox.grouped);
            Ok(())
        },
    }
}

fn send_groups(
    plan: &HousePlan,
    reconciler: &mut Reconciler,
    outbox: &mut Outbox,
    logical: &Vec<LightTarget>,
    targets: &Vec<LightTarget>,
    update: &Vec<bool>,
    now: MonotonicTime,
) -> (result: Result<(), RuntimeError>)
    requires
        plan.wf(),
        old(reconciler).wf(),
        logical@.len() == plan.owners@.len(),
        targets@.len() == plan.devices@.len(),
        update@.len() == plan.devices@.len(),
        old(outbox).grouped@.len() == plan.devices@.len(),
    ensures
        sends(
            plan.groups_sent(
                old(outbox).with(old(reconciler)@),
                logical@,
                targets@,
                update@,
                now,
                plan.groups@.len() as int,
            ),
            final(reconciler)@,
            *final(outbox),
            result,
        ),
        final(reconciler).wf(),
        final(outbox).grouped@.len() == plan.devices@.len(),
{
    let ghost start = outbox.with(reconciler@);
    let ghost count = plan.groups@.len() as int;
    let mut g: usize = 0;
    while g < plan.groups.len()
        invariant
            g <= count,
            count == plan.groups@.len(),
            plan.wf(),
            reconciler.wf(),
            logical@.len() == plan.owners@.len(),
            targets@.len() == plan.devices@.len(),
            update@.len() == plan.devices@.len(),
            outbox.grouped@.len() == plan.devices@.len(),
            start == old(outbox).with(old(reconciler)@),
            plan.groups_sent(start, logical@, targets@, update@, now, g as int) == outbox.with(
                reconciler@,
            ),
        decreases count - g,
    {
        match send_group(plan, reconciler, outbox, g, logical, targets, update, now) {
            Ok(()) => {},
            Err(error) => {
                proof {
                    lemma_groups_fault(
                        plan,
                        start,
                        logical@,
                        targets@,
                        update@,
                        now,
                        g + 1,
                        count,
                    );
                }
                return Err(error);
            },
        }
        g = g + 1;
    }
    Ok(())
}

fn send_lights(
    plan: &HousePlan,
    reconciler: &mut Reconciler,
    outbox: &mut Outbox,
    targets: &Vec<LightTarget>,
    update: &Vec<bool>,
    now: MonotonicTime,
) -> (result: Result<(), RuntimeError>)
    requires
        old(reconciler).wf(),
        targets@.len() == plan.devices@.len(),
        update@.len() == plan.devices@.len(),
        old(outbox).grouped@.len() == plan.devices@.len(),
    ensures
        sends(
            plan.lights_sent(
                old(outbox).with(old(reconciler)@),
                targets@,
                update@,
                now,
                plan.devices@.len() as int,
            ),
            final(reconciler)@,
            *final(outbox),
            result,
        ),
        final(reconciler).wf(),
{
    let ghost start = outbox.with(reconciler@);
    let ghost count = plan.devices@.len() as int;
    let mut i: usize = 0;
    while i < plan.devices.len()
        invariant
            i <= count,
            count == plan.devices@.len(),
            reconciler.wf(),
            targets@.len() == plan.devices@.len(),
            update@.len() == plan.devices@.len(),
            outbox.grouped@.len() == plan.devices@.len(),
            start == old(outbox).with(old(reconciler)@),
            plan.lights_sent(start, targets@, update@, now, i as int) == outbox.with(reconciler@),
        decreases count - i,
    {
        if !outbox.grouped[i] && update[i] {
            match ask_light(reconciler, &plan.devices[i].id, targets[i], now) {
                Ok(actions) => {
                    outbox.extend(actions);
                },
                Err(error) => {
                    proof {
                        lemma_lights_fault(plan, start, targets@, update@, now, i + 1, count);
                    }
                    return Err(RuntimeError::Reconcile(error));
                },
            }
        }
        i = i + 1;
    }
    Ok(())
}

fn changed_lights(
    plan: &HousePlan,
    last_targets: &Vec<Option<LightTarget>>,
    targets: &Vec<LightTarget>,
    force: bool,
) -> (mask: Vec<bool>)
    requires
        last_targets@.len() == targets@.len(),
    ensures
        mask@ == plan.changed(last_targets@, targets@, force),
{
    let mut mask: Vec<bool> = Vec::new();
    let ghost all = plan.changed(last_targets@, targets@, force);
    let mut i: usize = 0;
    while i < targets.len()
        invariant
            i <= targets@.len(),
            last_targets@.len() == targets@.len(),
            all == plan.changed(last_targets@, targets@, force),
            mask@ == all.take(i as int),
        decreases targets@.len() - i,
    {
        let changed = force || match &last_targets[i] {
            Some(previous) => target_change_exceeds_threshold(
                previous,
                &targets[i],
                plan.circadian.brightness_change_threshold,
                plan.circadian.color_temperature_change_threshold_kelvin,
            ),
            None => true,
        };
        mask.push(changed);
        i = i + 1;
        assert(mask@ =~= all.take(i as int));
    }
    assert(mask@ =~= all);
    mask
}

fn stale_lights(
    plan: &HousePlan,
    last_reconciled: &Vec<Option<MonotonicTime>>,
    now: MonotonicTime,
    force: bool,
) -> (mask: Vec<bool>)
    ensures
        mask@ == plan.stale(last_reconciled@, now, force),
{
    let mut mask: Vec<bool> = Vec::new();
    let ghost all = plan.stale(last_reconciled@, now, force);
    let mut i: usize = 0;
    while i < last_reconciled.len()
        invariant
            i <= last_reconciled@.len(),
            all == plan.stale(last_reconciled@, now, force),
            mask@ == all.take(i as int),
        decreases last_reconciled@.len() - i,
    {
        let stale = !force && match last_reconciled[i] {
            Some(previous) => plan.circadian.maximum_refresh_seconds.le(
                now.as_seconds().minus(previous.as_seconds()),
            ),
            None => false,
        };
        mask.push(stale);
        i = i + 1;
        assert(mask@ =~= all.take(i as int));
    }
    assert(mask@ =~= all);
    mask
}

fn is_any(mask: &Vec<bool>) -> (result: bool)
    ensures
        result == crate::dispatch::any(mask@),
{
    let mut i: usize = 0;
    while i < mask.len()
        invariant
            i <= mask@.len(),
            forall|j: int| 0 <= j < i ==> !#[trigger] mask@[j],
        decreases mask@.len() - i,
    {
        if mask[i] {
            assert(mask@[i as int]);
            return true;
        }
        i = i + 1;
    }
    false
}

fn either_mask(a: &Vec<bool>, b: &Vec<bool>) -> (mask: Vec<bool>)
    requires
        a@.len() == b@.len(),
    ensures
        mask@ == crate::dispatch::either(a@, b@),
{
    let mut mask: Vec<bool> = Vec::new();
    let mut i: usize = 0;
    while i < a.len()
        invariant
            i <= a@.len(),
            a@.len() == b@.len(),
            mask@ == crate::dispatch::either(a@, b@).take(i as int),
        decreases a@.len() - i,
    {
        mask.push(a[i] || b[i]);
        i = i + 1;
        assert(mask@ =~= crate::dispatch::either(a@, b@).take(i as int));
    }
    assert(mask@ =~= crate::dispatch::either(a@, b@));
    mask
}

fn chosen_ids(plan: &HousePlan, mask: &Vec<bool>) -> (ids: Vec<DeviceId>)
    requires
        mask@.len() == plan.devices@.len(),
    ensures
        ids@ == plan.marked_ids(mask@, mask@.len() as int),
{
    let mut ids: Vec<DeviceId> = Vec::new();
    let mut i: usize = 0;
    while i < mask.len()
        invariant
            i <= mask@.len(),
            mask@.len() == plan.devices@.len(),
            ids@ == plan.marked_ids(mask@, i as int),
        decreases mask@.len() - i,
    {
        if mask[i] {
            ids.push(plan.devices[i].id.clone());
        }
        i = i + 1;
    }
    ids
}

fn note_targets(entries: &mut Vec<Option<LightTarget>>, mask: &Vec<bool>, targets: &Vec<LightTarget>)
    requires
        old(entries)@.len() == mask@.len(),
        targets@.len() == mask@.len(),
    ensures
        final(entries)@ == marked_with(old(entries)@, mask@, targets@),
{
    let ghost before = entries@;
    let mut i: usize = 0;
    while i < mask.len()
        invariant
            i <= mask@.len(),
            entries@.len() == mask@.len(),
            before.len() == mask@.len(),
            targets@.len() == mask@.len(),
            forall|j: int|
                0 <= j < before.len() ==> #[trigger] entries@[j] == if j < i && mask@[j] {
                    Some(targets@[j])
                } else {
                    before[j]
                },
        decreases mask@.len() - i,
    {
        if mask[i] {
            entries.set(i, Some(targets[i]));
        }
        i = i + 1;
    }
    assert(entries@ =~= marked_with(before, mask@, targets@));
}

fn note_time(entries: &mut Vec<Option<MonotonicTime>>, mask: &Vec<bool>, now: MonotonicTime)
    requires
        old(entries)@.len() == mask@.len(),
    ensures
        final(entries)@ == marked_as(old(entries)@, mask@, now),
{
    let ghost before = entries@;
    let mut i: usize = 0;
    while i < mask.len()
        invariant
            i <= mask@.len(),
            entries@.len() == mask@.len(),
            before.len() == mask@.len(),
            forall|j: int|
                0 <= j < before.len() ==> #[trigger] entries@[j] == if j < i && mask@[j] {
                    Some(now)
                } else {
                    before[j]
                },
        decreases mask@.len() - i,
    {
        if mask[i] {
            entries.set(i, Some(now));
        }
        i = i + 1;
    }
    assert(entries@ =~= marked_as(before, mask@, now));
}

/// The result tells of the recomputation.
pub open spec fn recomputes(
    expected: Recomputed,
    after: EngineModel,
    count: int,
    result: Result<(Vec<ReconcileAction>, usize), RuntimeError>,
) -> bool {
    &&& after == expected.0
    &&& match expected.1 {
        Ok(actions) => result matches Ok(found) && found.0@ == actions && found.1 == count,
        Err(error) => result == Err::<(Vec<ReconcileAction>, usize), RuntimeError>(error),
    }
}

impl HouseEngine {
    fn compute_layers(&self, now: RuntimeInstant) -> (result: Result<
        Vec<LayeredLightTarget>,
        RuntimeError,
    >)
        requires
            self.wf(),
            now.wf(),
        ensures
            match self.plan.layers(
                *self.almanac,
                self.state.scopes@,
                now,
                self.plan.owners@.len() as int,
            ) {
                Ok(layers) => result matches Ok(list) && list@ == layers,
                Err(error) => result == Err::<Vec<LayeredLightTarget>, RuntimeError>(error),
            },
            result matches Ok(list) ==> list@.len() == self.plan.owners@.len(),
    {
        let mut list: Vec<LayeredLightTarget> = Vec::new();
        let ghost count = self.plan.owners@.len() as int;
        let ghost scopes = self.state.scopes@;
        let mut k: usize = 0;
        while k < self.plan.owners.len()
            invariant
                k <= count,
                count == self.plan.owners@.len(),
                scopes == self.state.scopes@,
                self.wf(),
                now.wf(),
                list@.len() == k,
                self.plan.layers(*self.almanac, scopes, now, k as int) == Ok::<
                    Seq<LayeredLightTarget>,
                    RuntimeError,
                >(list@),
            decreases count - k,
        {
            match self.layer_of(k, now) {
                Ok(layer) => {
                    list.push(layer);
                },
                Err(error) => {
                    proof {
                        lemma_layers_fault(&*self.plan, &*self.almanac, scopes, now, k + 1, count);
                    }
                    return Err(error);
                },
            }
            k = k + 1;
        }
        Ok(list)
    }

    fn layer_of(&self, k: usize, now: RuntimeInstant) -> (result: Result<
        LayeredLightTarget,
        RuntimeError,
    >)
        requires
            self.wf(),
            now.wf(),
            k < self.plan.owners@.len(),
        ensures
            result == self.plan.layer(*self.almanac, self.state.scopes@, k as int, now),
    {
        proof {
            reveal(HousePlan::layer);
        }
        match self.plan.sample(&self.almanac, k, now) {
            Ok(point) => match self.state.compose_scope_layers(
                &self.plan.owners[k],
                point,
                now.monotonic,
            ) {
                Ok(layers) => Ok(layers),
                Err(error) => Err(RuntimeError::State(error)),
            },
            Err(error) => Err(error),
        }
    }

    fn send(
        &mut self,
        logical: &Vec<LightTarget>,
        targets: &Vec<LightTarget>,
        now: MonotonicTime,
        force: bool,
    ) -> (result: Result<(Vec<ReconcileAction>, usize), RuntimeError>)
        requires
            old(self).wf(),
            logical@.len() == old(self).plan.owners@.len(),
            targets@.len() == old(self).plan.devices@.len(),
        ensures
            recomputes(
                old(self)@.sent(*old(self).plan, logical@, targets@, now, force),
                final(self)@,
                old(self).plan.devices@.len() as int,
                result,
            ),
            final(self).wf(),
            final(self).same_house(*old(self)),
            final(self).same_clicks(*old(self)),
            final(self).state == old(self).state,
    {
        let count: usize = self.plan.devices.len();
        let changed = changed_lights(&self.plan, &self.last_targets, targets, force);
        let stale = stale_lights(&self.plan, &self.last_reconciled_at, now, force);
        let update = either_mask(&changed, &stale);
        if !is_any(&changed) && is_any(&stale) {
            let ids = chosen_ids(&self.plan, &stale);
            return match refresh_lights(&mut self.reconciler, &ids, now) {
                Ok(actions) => {
                    note_time(&mut self.last_reconciled_at, &stale, now);
                    Ok((actions, count))
                },
                Err(error) => Err(RuntimeError::Reconcile(error)),
            };
        }
        let mut outbox = Outbox { actions: Vec::new(), grouped: no_marks(count) };
        assert(outbox.with(self.reconciler@) =~= Sending::start(
            self.reconciler@,
            self.plan.devices@.len(),
        ));
        match send_groups(
            &self.plan,
            &mut self.reconciler,
            &mut outbox,
            logical,
            targets,
            &update,
            now,
        ) {
            Ok(()) => {},
            Err(error) => return Err(error),
        }
        match send_lights(&self.plan, &mut self.reconciler, &mut outbox, targets, &update, now) {
            Ok(()) => {},
            Err(error) => return Err(error),
        }
        note_targets(&mut self.last_targets, &update, targets);
        note_time(&mut self.last_reconciled_at, &update, now);
        Ok((outbox.actions, count))
    }

    fn recompute_desired_with_policy(&mut self, now: RuntimeInstant, force: bool) -> (result: Result<
        (Vec<ReconcileAction>, usize),
        RuntimeError,
    >)
        requires
            old(self).wf(),
            now.wf(),
        ensures
            recomputes(
                old(self)@.recomputed(*old(self).plan, *old(self).almanac, now, force),
                final(self)@,
                old(self).plan.devices@.len() as int,
                result,
            ),
            final(self).wf(),
            final(self).same_house(*old(self)),
            final(self).same_clicks(*old(self)),
            final(self).state == old(self).state,
    {
        let layers = match self.compute_layers(now) {
            Ok(layers) => layers,
            Err(error) => return Err(error),
        };
        let logical = match compose_owners(&mut self.overlays, &layers, now.monotonic) {
            Ok(targets) => targets,
            Err(error) => return Err(error),
        };
        proof {
            lemma_owners_count(
                overlay_models(old(self).overlays@),
                layers@,
                now.monotonic,
                layers@.len() as int,
            );
        }
        let targets = match compose_devices(
            &self.plan,
            &mut self.overlays,
            &layers,
            now.monotonic,
        ) {
            Ok(targets) => targets,
            Err(error) => return Err(error),
        };
        proof {
            lemma_devices_count(
                &*self.plan,
                owners_composed(
                    overlay_models(old(self).overlays@),
                    layers@,
                    now.monotonic,
                    layers@.len() as int,
                ).overlays,
                layers@,
                now.monotonic,
                self.plan.devices@.len() as int,
            );
        }
        self.send(&logical, &targets, now.monotonic, force)
    }

    /// Computes every target anew and sends all of them on.
    pub fn recompute_desired(&mut self, now: RuntimeInstant) -> (result: Result<
        (Vec<ReconcileAction>, usize),
        RuntimeError,
    >)
        requires
            old(self).wf(),
            now.wf(),
        ensures
            recomputes(
                old(self)@.recomputed(*old(self).plan, *old(self).almanac, now, true),
                final(self)@,
                old(self).plan.devices@.len() as int,
                result,
            ),
            final(self).wf(),
            final(self).same_house(*old(self)),
            final(self).same_clicks(*old(self)),
            final(self).state == old(self).state,
    {
        self.recompute_desired_with_policy(now, true)
    }

    /// Computes every target anew and sends on those that changed enough.
    pub fn recompute_sparse(&mut self, now: RuntimeInstant) -> (result: Result<
        (Vec<ReconcileAction>, usize),
        RuntimeError,
    >)
        requires
            old(self).wf(),
            now.wf(),
        ensures
            recomputes(
                old(self)@.recomputed(*old(self).plan, *old(self).almanac, now, false),
                final(self)@,
                old(self).plan.devices@.len() as int,
                result,
            ),
            final(self).wf(),
            final(self).same_house(*old(self)),
            final(self).same_clicks(*old(self)),
            final(self).state == old(self).state,
    {
        self.recompute_desired_with_policy(now, false)
    }
}

fn no_marks(count: usize) -> (mask: Vec<bool>)
    ensures
        mask@ == Seq::new(count as nat, |i: int| false),
{
    let mut mask: Vec<bool> = Vec::new();
    while mask.len() < count
        invariant
            mask@.len() <= count,
            forall|j: int| 0 <= j < mask@.len() ==> !#[trigger] mask@[j],
        decreases count - mask@.len(),
    {
        mask.push(false);
    }
    assert(mask@ =~= Seq::new(count as nat, |i: int| false));
    mask
}

proof fn lemma_owners_count(
    overlays: Seq<OverlayModel>,
    layers: Seq<LayeredLightTarget>,
    now: MonotonicTime,
    n: int,
)
    requires
        0 <= n,
    ensures
        owners_composed(overlays, layers, now, n).fault is None ==> owners_composed(
            overlays,
            layers,
            now,
            n,
        ).targets.len() == n,
    decreases n,
{
    if n > 0 {
        lemma_owners_count(overlays, layers, now, n - 1);
    }
}

proof fn lemma_devices_count(
    plan: &HousePlan,
    overlays: Seq<OverlayModel>,
    layers: Seq<LayeredLightTarget>,
    now: MonotonicTime,
    n: int,
)
    requires
        0 <= n,
    ensures
        plan.devices_composed(overlays, layers, now, n).fault is None ==> plan.devices_composed(
            overlays,
            layers,
            now,
            n,
        ).targets.len() == n,
    decreases n,
{
    if n > 0 {
        lemma_devices_count(plan, overlays, layers, now, n - 1);
    }
}

// Actions.

/// Scopes and overlays on the way through an action.
#[verifier::ext_equal]
pub struct Acting {
    pub scopes: Map<Seq<u8>, ScopeState>,
    pub overlays: Seq<OverlayModel>,
    pub acknowledged: nat,
    pub fault: Option<RuntimeError>,
}

impl Acting {
    pub open spec fn failed(self, error: RuntimeError) -> Acting {
        Acting { fault: Some(error), ..self }
    }

    /// Scope `scope` has a new state.
    pub open spec fn with_scope(self, scope: Scope, state: ScopeState) -> Acting {
        Acting { scopes: self.scopes.insert(scope.key(), state), ..self }
    }

    /// The offsets of `scope` are moved.
    pub open spec fn shifted(self, scope: Scope, brightness: Double, kelvin: Double) -> Acting {
        let state = self.scopes[scope.key()];
        let offsets = state.offsets.moved(brightness, kelvin);
        if !self.scopes.contains_key(scope.key()) {
            self.failed(RuntimeError::State(StateError::UnknownScope(scope)))
        } else if offsets.wf() {
            self.with_scope(scope, ScopeState { offsets, ..state })
        } else {
            self.failed(RuntimeError::State(StateError::NonFinite))
        }
    }

    /// `scope` is switched.
    pub open spec fn switched(self, scope: Scope, on: bool) -> Acting {
        if self.scopes.contains_key(scope.key()) {
            self.with_scope(scope, ScopeState { on, ..self.scopes[scope.key()] })
        } else {
            self.failed(RuntimeError::State(StateError::UnknownScope(scope)))
        }
    }

    /// The acknowledgement of a toggle starts on overlay set `k`.
    pub open spec fn acknowledging(
        self,
        settings: AcknowledgementSettings,
        k: int,
        outcome: CurveToggleOutcome,
        shown: LayeredLightTarget,
        now: MonotonicTime,
    ) -> Acting {
        match settings.request(outcome, shown) {
            None => self,
            Some(request) => {
                let (next, result) = self.overlays[k].with_request(request.overlay, now);
                match result {
                    Ok(()) => Acting {
                        overlays: self.overlays.update(k, next),
                        acknowledged: self.acknowledged + 1,
                        ..self
                    },
                    Err(error) => self.failed(RuntimeError::Overlay(error)),
                }
            },
        }
    }
}

impl HousePlan {
    /// Owner `k` rules some light within `target`.
    pub open spec fn affects(self, k: int, target: Scope) -> bool {
        exists|i: int|
            0 <= i < self.devices@.len() && (#[trigger] self.devices@[i]).owner == k
                && self.devices@[i].membership.within(target)
    }

    /// The owners that rule some light within `target`.
    pub open spec fn affected(self, target: Scope) -> Seq<bool> {
        Seq::new(self.owners@.len(), |k: int| self.affects(k, target))
    }

    /// Some marked owner is on.
    pub open spec fn any_on(self, scopes: Map<Seq<u8>, ScopeState>, mask: Seq<bool>) -> bool {
        exists|k: int|
            0 <= k < mask.len() && #[trigger] mask[k] && scopes.contains_key(
                self.owners@[k].key(),
            ) && scopes[self.owners@[k].key()].on
    }

    /// Every marked owner is frozen.
    pub open spec fn all_frozen(self, scopes: Map<Seq<u8>, ScopeState>, mask: Seq<bool>) -> bool {
        forall|k: int|
            0 <= k < mask.len() && #[trigger] mask[k] ==> scopes.contains_key(
                self.owners@[k].key(),
            ) && scopes[self.owners@[k].key()].mode is Frozen
    }

    /// The curve of owner `k` is frozen, or let go where `frozen` says so.
    pub open spec fn circadian_toggled(
        self,
        almanac: SolarAlmanac,
        acting: Acting,
        frozen: bool,
        k: int,
        now: RuntimeInstant,
    ) -> Acting {
        let scope = self.owners@[k];
        let state = acting.scopes[scope.key()];
        match self.live(almanac, k, now) {
            Err(error) => acting.failed(error),
            Ok(point) => match crate::state::layers_in(
                acting.scopes,
                scope,
                point,
                now.monotonic,
            ) {
                Err(error) => acting.failed(RuntimeError::State(error)),
                Ok(shown) => if frozen {
                    acting.with_scope(
                        scope,
                        state.unfrozen(now.monotonic, self.circadian.convergence_duration),
                    ).acknowledging(
                        self.acknowledgement,
                        k,
                        CurveToggleOutcome::Unfrozen,
                        shown,
                        now.monotonic,
                    )
                } else {
                    match state.baseline(point, now.monotonic) {
                        Err(error) => acting.failed(RuntimeError::State(error)),
                        Ok((baseline, _)) => acting.with_scope(
                            scope,
                            ScopeState { mode: CurveMode::Frozen { baseline }, ..state },
                        ).acknowledging(
                            self.acknowledgement,
                            k,
                            CurveToggleOutcome::Frozen,
                            shown,
                            now.monotonic,
                        ),
                    }
                },
            },
        }
    }

    /// What the action does to owner `k`; `flag` says of a power toggle that some
    /// owner is on, and of a curve toggle that all are frozen.
    #[verifier::opaque]
    pub open spec fn owner_acted(
        self,
        almanac: SolarAlmanac,
        acting: Acting,
        action: Action,
        flag: bool,
        k: int,
        now: RuntimeInstant,
    ) -> Acting {
        let zero = Double { bits: 0 };
        match action {
            Action::AdjustBrightnessOffset(delta) => acting.shifted(
                self.owners@[k],
                delta.value,
                zero,
            ),
            Action::AdjustColorTemperatureOffset(delta) => acting.shifted(
                self.owners@[k],
                zero,
                delta.value,
            ),
            Action::TogglePower => acting.switched(self.owners@[k], !flag),
            Action::ToggleCircadian => self.circadian_toggled(almanac, acting, flag, k, now),
            Action::SelectScope => acting,
        }
    }

    pub open spec fn owners_acted(
        self,
        almanac: SolarAlmanac,
        start: Acting,
        action: Action,
        flag: bool,
        mask: Seq<bool>,
        now: RuntimeInstant,
        n: int,
    ) -> Acting
        decreases n,
    {
        if n <= 0 {
            start
        } else {
            let before = self.owners_acted(almanac, start, action, flag, mask, now, n - 1);
            if before.fault is Some || !mask[n - 1] {
                before
            } else {
                self.owner_acted(almanac, before, action, flag, n - 1, now)
            }
        }
    }

    /// What an action needs to know of all affected owners.
    pub open spec fn action_flag(
        self,
        scopes: Map<Seq<u8>, ScopeState>,
        action: Action,
        mask: Seq<bool>,
    ) -> bool {
        match action {
            Action::TogglePower => self.any_on(scopes, mask),
            Action::ToggleCircadian => self.all_frozen(scopes, mask),
            _ => false,
        }
    }
}

/// Number of marks.
pub open spec fn marks(mask: Seq<bool>) -> nat
    decreases mask.len(),
{
    if mask.len() == 0 {
        0
    } else {
        marks(mask.drop_last()) + if mask.last() {
            1nat
        } else {
            0
        }
    }
}

impl EngineModel {
    /// The action, done to every owner that rules a light within `target`.
    pub open spec fn acted(
        self,
        plan: HousePlan,
        almanac: SolarAlmanac,
        action: Action,
        target: Scope,
        now: RuntimeInstant,
    ) -> (EngineModel, Result<ActionSummary, RuntimeError>) {
        let mask = plan.affected(target);
        let done = plan.owners_acted(
            almanac,
            Acting {
                scopes: self.scopes,
                overlays: self.overlays,
                acknowledged: 0,
                fault: None,
            },
            action,
            plan.action_flag(self.scopes, action, mask),
            mask,
            now,
            mask.len() as int,
        );
        if action is SelectScope {
            (self, Err(RuntimeError::InvalidTopology(TopologyProblem::SelectionNeedsControl)))
        } else if !crate::dispatch::any(mask) {
            (self, Err(RuntimeError::InvalidTopology(TopologyProblem::EmptyTarget)))
        } else if done.fault is Some {
            (self, Err(done.fault->0))
        } else {
            let next = EngineModel { scopes: done.scopes, overlays: done.overlays, ..self };
            let (after, result) = next.recomputed(plan, almanac, now, true);
            match result {
                Err(error) => (after, Err(error)),
                Ok(actions) => (
                    after.queued(actions),
                    Ok(
                        ActionSummary {
                            affected_owner_count: marks(mask) as usize,
                            acknowledged_owner_count: done.acknowledged as usize,
                            recomputed_devices: plan.devices@.len() as usize,
                            durable_state_changed: true,
                        },
                    ),
                ),
            }
        }
    }
}

proof fn lemma_acted_fault(
    plan: &HousePlan,
    almanac: &SolarAlmanac,
    start: Acting,
    action: Action,
    flag: bool,
    mask: Seq<bool>,
    now: RuntimeInstant,
    m: int,
    n: int,
)
    requires
        0 <= m <= n,
        plan.owners_acted(*almanac, start, action, flag, mask, now, m).fault is Some,
    ensures
        plan.owners_acted(*almanac, start, action, flag, mask, now, n) == plan.owners_acted(
            *almanac,
            start,
            action,
            flag,
            mask,
            now,
            m,
        ),
    decreases n,
{
    if m < n {
        lemma_acted_fault(plan, almanac, start, action, flag, mask, now, m, n - 1);
    }
}

fn affected_owners(plan: &HousePlan, target: &Scope) -> (mask: Vec<bool>)
    ensures
        mask@ == plan.affected(*target),
{
    let mut mask: Vec<bool> = Vec::new();
    let mut k: usize = 0;
    while k < plan.owners.len()
        invariant
            k <= plan.owners@.len(),
            mask@ == plan.affected(*target).take(k as int),
        decreases plan.owners@.len() - k,
    {
        let mut found = false;
        let mut i: usize = 0;
        while i < plan.devices.len() && !found
            invariant
                i <= plan.devices@.len(),
                found ==> plan.affects(k as int, *target),
                !found ==> forall|j: int|
                    0 <= j < i ==> !((#[trigger] plan.devices@[j]).owner == k
                        && plan.devices@[j].membership.within(*target)),
            decreases plan.devices@.len() - i,
        {
            if plan.devices[i].owner == k && plan.devices[i].membership.is_in(target) {
                assert(plan.devices@[i as int].owner == k
                    && plan.devices@[i as int].membership.within(*target));
                found = true;
            }
            i = i + 1;
        }
        mask.push(found);
        k = k + 1;
        assert(mask@ =~= plan.affected(*target).take(k as int));
    }
    assert(mask@ =~= plan.affected(*target));
    mask
}

fn is_any_on(plan: &HousePlan, state: &AutomationState, mask: &Vec<bool>) -> (result: bool)
    requires
        mask@.len() == plan.owners@.len(),
    ensures
        result == plan.any_on(state.scopes@, mask@),
{
    let mut k: usize = 0;
    while k < mask.len()
        invariant
            k <= mask@.len(),
            mask@.len() == plan.owners@.len(),
            forall|j: int|
                0 <= j < k ==> !(#[trigger] mask@[j] && state.scopes@.contains_key(
                    plan.owners@[j].key(),
                ) && state.scopes@[plan.owners@[j].key()].on),
        decreases mask@.len() - k,
    {
        if mask[k] {
            if let Ok(scope) = state.scope_state(&plan.owners[k]) {
                if scope.is_on() {
                    assert(mask@[k as int]);
                    return true;
                }
            }
        }
        k = k + 1;
    }
    false
}

fn are_all_frozen(plan: &HousePlan, state: &AutomationState, mask: &Vec<bool>) -> (result: bool)
    requires
        mask@.len() == plan.owners@.len(),
    ensures
        result == plan.all_frozen(state.scopes@, mask@),
{
    let mut k: usize = 0;
    while k < mask.len()
        invariant
            k <= mask@.len(),
            mask@.len() == plan.owners@.len(),
            forall|j: int|
                0 <= j < k && #[trigger] mask@[j] ==> state.scopes@.contains_key(
                    plan.owners@[j].key(),
                ) && state.scopes@[plan.owners@[j].key()].mode is Frozen,
        decreases mask@.len() - k,
    {
        if mask[k] {
            assert(mask@[k as int]);
            match state.scope_state(&plan.owners[k]) {
                Ok(scope) => {
                    if !scope.is_frozen() {
                        return false;
                    }
                },
                Err(_) => return false,
            }
        }
        k = k + 1;
    }
    true
}

/// State and overlays are those of `acting`.
pub open spec fn acts(
    acting: Acting,
    state: AutomationState,
    overlays: Seq<OverlaySet>,
    acknowledged: usize,
    result: Result<(), RuntimeError>,
) -> bool {
    match acting.fault {
        Some(error) => result == Err::<(), RuntimeError>(error),
        None => {
            &&& result is Ok
            &&& acting.scopes == state.scopes@
            &&& acting.overlays == overlay_models(overlays)
            &&& acting.acknowledged == acknowledged
        },
    }
}

fn acknowledge(
    plan: &HousePlan,
    overlays: &mut Vec<OverlaySet>,
    acknowledged: &mut usize,
    k: usize,
    outcome: CurveToggleOutcome,
    shown: &LayeredLightTarget,
    now: MonotonicTime,
    Ghost(scopes): Ghost<Map<Seq<u8>, ScopeState>>,
) -> (result: Result<(), RuntimeError>)
    requires
        k < old(overlays)@.len(),
        *old(acknowledged) < usize::MAX,
    ensures
        ({
            let acting = (Acting {
                scopes,
                overlays: overlay_models(old(overlays)@),
                acknowledged: *old(acknowledged) as nat,
                fault: None,
            }).acknowledging(plan.acknowledgement, k as int, outcome, *shown, now);
            match acting.fault {
                Some(error) => result == Err::<(), RuntimeError>(error),
                None => {
                    &&& result is Ok
                    &&& acting.scopes == scopes
                    &&& acting.overlays == overlay_models(final(overlays)@)
                    &&& acting.acknowledged == *final(acknowledged)
                },
            }
        }),
        final(overlays)@.len() == old(overlays)@.len(),
        *final(acknowledged) <= *old(acknowledged) + 1,
{
    match plan.acknowledgement.for_scope_toggle(outcome, shown) {
        None => Ok(()),
        Some(request) => {
            let ghost before = overlays@;
            assert(overlay_models(before)[k as int] == before[k as int].model());
            let result = overlays[k].insert_request(request.into_overlay(), now);
            assert(overlay_models(overlays@) =~= overlay_models(before).update(
                k as int,
                overlays@[k as int].model(),
            ));
            match result {
                Ok(()) => {
                    *acknowledged = *acknowledged + 1;
                    Ok(())
                },
                Err(error) => Err(RuntimeError::Overlay(error)),
            }
        },
    }
}

fn toggle_circadian(
    plan: &HousePlan,
    almanac: &SolarAlmanac,
    state: &mut AutomationState,
    overlays: &mut Vec<OverlaySet>,
    acknowledged: &mut usize,
    frozen: bool,
    k: usize,
    now: RuntimeInstant,
) -> (result: Result<(), RuntimeError>)
    requires
        plan.wf(),
        now.wf(),
        k < plan.owners@.len(),
        old(overlays)@.len() == plan.owners@.len(),
        *old(acknowledged) < usize::MAX,
    ensures
        acts(
            plan.circadian_toggled(
                *almanac,
                Acting {
                    scopes: old(state).scopes@,
                    overlays: overlay_models(old(overlays)@),
                    acknowledged: *old(acknowledged) as nat,
                    fault: None,
                },
                frozen,
                k as int,
                now,
            ),
            *final(state),
            final(overlays)@,
            *final(acknowledged),
            result,
        ),
        final(state).controls == old(state).controls,
        final(state).last_reset_date == old(state).last_reset_date,
        final(overlays)@.len() == old(overlays)@.len(),
        *final(acknowledged) <= *old(acknowledged) + 1,
{
    let point = match plan.sample(almanac, k, now) {
        Ok(point) => point,
        Err(error) => return Err(error),
    };
    let scope = &plan.owners[k];
    let shown = match state.compose_scope_layers(scope, point, now.monotonic) {
        Ok(shown) => shown,
        Err(error) => return Err(RuntimeError::State(error)),
    };
    let outcome = if frozen {
        match state.unfreeze_scope_curve(
            scope,
            now.monotonic,
            plan.circadian.convergence_duration,
        ) {
            Ok(()) => CurveToggleOutcome::Unfrozen,
            Err(error) => return Err(RuntimeError::State(error)),
        }
    } else {
        match state.freeze_scope_curve(scope, point, now.monotonic) {
            Ok(()) => CurveToggleOutcome::Frozen,
            Err(error) => return Err(RuntimeError::State(error)),
        }
    };
    acknowledge(
        plan,
        overlays,
        acknowledged,
        k,
        outcome,
        &shown,
        now.monotonic,
        Ghost(state.scopes@),
    )
}

fn act_on_owner(
    plan: &HousePlan,
    almanac: &SolarAlmanac,
    state: &mut AutomationState,
    overlays: &mut Vec<OverlaySet>,
    acknowledged: &mut usize,
    action: Action,
    flag: bool,
    k: usize,
    now: RuntimeInstant,
) -> (result: Result<(), RuntimeError>)
    requires
        plan.wf(),
        now.wf(),
        k < plan.owners@.len(),
        old(overlays)@.len() == plan.owners@.len(),
        *old(acknowledged) < usize::MAX,
    ensures
        acts(
            plan.owner_acted(
                *almanac,
                Acting {
                    scopes: old(state).scopes@,
                    overlays: overlay_models(old(overlays)@),
                    acknowledged: *old(acknowledged) as nat,
                    fault: None,
                },
                action,
                flag,
                k as int,
                now,
            ),
            *final(state),
            final(overlays)@,
            *final(acknowledged),
            result,
        ),
        final(state).controls == old(state).controls,
        final(state).last_reset_date == old(state).last_reset_date,
        final(overlays)@.len() == old(overlays)@.len(),
        *final(acknowledged) <= *old(acknowledged) + 1,
{
    proof {
        reveal(HousePlan::owner_acted);
    }
    let zero = Double::from_bits(0);
    match action {
        Action::AdjustBrightnessOffset(delta) => match state.adjust_scope_offsets(
            &plan.owners[k],
            delta.get(),
            zero,
        ) {
            Ok(_) => Ok(()),
            Err(error) => Err(RuntimeError::State(error)),
        },
        Action::AdjustColorTemperatureOffset(delta) => match state.adjust_scope_offsets(
            &plan.owners[k],
            zero,
            delta.get(),
        ) {
            Ok(_) => Ok(()),
            Err(error) => Err(RuntimeError::State(error)),
        },
        Action::TogglePower => match state.set_scope_power(&plan.owners[k], !flag) {
            Ok(()) => Ok(()),
            Err(error) => Err(RuntimeError::State(error)),
        },
        Action::ToggleCircadian => toggle_circadian(
            plan,
            almanac,
            state,
            overlays,
            acknowledged,
            flag,
            k,
            now,
        ),
        Action::SelectScope => Ok(()),
    }
}

fn act_on_owners(
    plan: &HousePlan,
    almanac: &SolarAlmanac,
    state: &mut AutomationState,
    overlays: &mut Vec<OverlaySet>,
    acknowledged: &mut usize,
    action: Action,
    flag: bool,
    mask: &Vec<bool>,
    now: RuntimeInstant,
) -> (result: Result<(), RuntimeError>)
    requires
        plan.wf(),
        now.wf(),
        mask@.len() == plan.owners@.len(),
        old(overlays)@.len() == plan.owners@.len(),
        *old(acknowledged) == 0,
    ensures
        acts(
            plan.owners_acted(
                *almanac,
                Acting {
                    scopes: old(state).scopes@,
                    overlays: overlay_models(old(overlays)@),
                    acknowledged: 0,
                    fault: None,
                },
                action,
                flag,
                mask@,
                now,
                mask@.len() as int,
            ),
            *final(state),
            final(overlays)@,
            *final(acknowledged),
            result,
        ),
        final(state).controls == old(state).controls,
        final(state).last_reset_date == old(state).last_reset_date,
        final(overlays)@.len() == old(overlays)@.len(),
{
    let ghost start = Acting {
        scopes: state.scopes@,
        overlays: overlay_models(overlays@),
        acknowledged: 0,
        fault: None,
    };
    let count: usize = mask.len();
    let mut k: usize = 0;
    while k < count
        invariant
            k <= count,
            count == mask@.len(),
            plan.wf(),
            now.wf(),
            count == plan.owners@.len(),
            overlays@.len() == count,
            old(overlays)@.len() == count,
            *acknowledged <= k,
            start == (Acting {
                scopes: old(state).scopes@,
                overlays: overlay_models(old(overlays)@),
                acknowledged: 0,
                fault: None,
            }),
            state.controls == old(state).controls,
            state.last_reset_date == old(state).last_reset_date,
            plan.owners_acted(*almanac, start, action, flag, mask@, now, k as int) == (Acting {
                scopes: state.scopes@,
                overlays: overlay_models(overlays@),
                acknowledged: *acknowledged as nat,
                fault: None,
            }),
        decreases count - k,
    {
        if mask[k] {
            match act_on_owner(
                plan,
                almanac,
                state,
                overlays,
                acknowledged,
                action,
                flag,
                k,
                now,
            ) {
                Ok(()) => {},
                Err(error) => {
                    proof {
                        lemma_acted_fault(
                            plan,
                            almanac,
                            start,
                            action,
                            flag,
                            mask@,
                            now,
                            k + 1,
                            count as int,
                        );
                    }
                    return Err(error);
                },
            }
        }
        k = k + 1;
    }
    Ok(())
}

fn copied_overlays(overlays: &Vec<OverlaySet>) -> (copy: Vec<OverlaySet>)
    ensures
        overlay_models(copy@) == overlay_models(overlays@),
        copy@.len() == overlays@.len(),
{
    let mut copy: Vec<OverlaySet> = Vec::new();
    let mut k: usize = 0;
    while k < overlays.len()
        invariant
            k <= overlays@.len(),
            copy@.len() == k,
            forall|j: int| 0 <= j < k ==> (#[trigger] copy@[j]).model() == overlays@[j].model(),
        decreases overlays@.len() - k,
    {
        copy.push(overlays[k].copied());
        k = k + 1;
    }
    assert(overlay_models(copy@) =~= overlay_models(overlays@));
    copy
}

fn count_marks(mask: &Vec<bool>) -> (count: usize)
    ensures
        count == marks(mask@),
        count <= mask@.len(),
{
    let mut count: usize = 0;
    let mut k: usize = 0;
    assert(mask@.take(0) =~= Seq::<bool>::empty());
    while k < mask.len()
        invariant
            k <= mask@.len(),
            count <= k,
            count == marks(mask@.take(k as int)),
        decreases mask@.len() - k,
    {
        proof {
            assert(mask@.take(k + 1).drop_last() =~= mask@.take(k as int));
        }
        if mask[k] {
            count = count + 1;
        }
        k = k + 1;
    }
    assert(mask@.take(k as int) =~= mask@);
    count
}

/// The engine is that of `expected`, and so is the result.
pub open spec fn became<T>(
    expected: (EngineModel, Result<T, RuntimeError>),
    after: EngineModel,
    result: Result<T, RuntimeError>,
) -> bool {
    after == expected.0 && result == expected.1
}

impl HouseEngine {
    fn queue_reconcile_actions(&mut self, actions: Vec<ReconcileAction>)
        ensures
            final(self)@ == old(self)@.queued(actions@),
            old(self).wf() ==> final(self).wf(),
            final(self).same_house(*old(self)),
            final(self).same_clicks(*old(self)),
            final(self).state == old(self).state,
    {
        let mut more = actions;
        self.pending_actions.append(&mut more);
    }

    fn apply_action(&mut self, action: Action, target: &Scope, now: RuntimeInstant) -> (result: Result<
        ActionSummary,
        RuntimeError,
    >)
        requires
            old(self).wf(),
            now.wf(),
        ensures
            became(
                old(self)@.acted(*old(self).plan, *old(self).almanac, action, *target, now),
                final(self)@,
                result,
            ),
            final(self).wf(),
            final(self).same_house(*old(self)),
            final(self).same_clicks(*old(self)),
    {
        if action.is_select_scope() {
            return Err(
                RuntimeError::InvalidTopology(TopologyProblem::SelectionNeedsControl),
            );
        }
        let affected = affected_owners(&self.plan, target);
        if !is_any(&affected) {
            return Err(RuntimeError::InvalidTopology(TopologyProblem::EmptyTarget));
        }
        let mut next_state = self.state.copied();
        let mut next_overlays = copied_overlays(&self.overlays);
        let mut acknowledged: usize = 0;
        let flag = match action {
            Action::TogglePower => is_any_on(&self.plan, &next_state, &affected),
            Action::ToggleCircadian => are_all_frozen(&self.plan, &next_state, &affected),
            _ => false,
        };
        match act_on_owners(
            &self.plan,
            &self.almanac,
            &mut next_state,
            &mut next_overlays,
            &mut acknowledged,
            action,
            flag,
            &affected,
            now,
        ) {
            Ok(()) => {},
            Err(error) => return Err(error),
        }
        self.state = next_state;
        self.overlays = next_overlays;
        let (actions, recomputed_devices) = match self.recompute_desired(now) {
            Ok(found) => found,
            Err(error) => return Err(error),
        };
        self.queue_reconcile_actions(actions);
        Ok(
            ActionSummary {
                affected_owner_count: count_marks(&affected),
                acknowledged_owner_count: acknowledged,
                recomputed_devices,
                durable_state_changed: true,
            },
        )
    }
}

// Input.

impl HousePlan {
    /// First place of a control among the first `n`; `n` where it is not there.
    pub open spec fn control_place(self, control: ControlId, n: int) -> int
        decreases n,
    {
        if n <= 0 {
            0
        } else {
            let before = self.control_place(control, n - 1);
            if before < n - 1 || self.controls@[n - 1].0.text@ == control.text@ {
                before
            } else {
                n
            }
        }
    }

    /// The entry that a control has for a gesture; none where it has none.
    pub open spec fn entry_of(self, control: ControlId, gesture: Gesture) -> Result<
        Option<MappingEntry>,
        RuntimeError,
    > {
        let c = self.control_place(control, self.controls@.len() as int);
        if c < self.controls@.len() {
            Ok(self.controls@[c].1.entry_of(gesture))
        } else {
            Err(RuntimeError::UnknownControl)
        }
    }

    /// The action of the first control, from `c` on, that has one for a gesture.
    pub open spec fn first_action(self, gesture: Gesture, c: int) -> Option<Action>
        decreases self.controls@.len() - c,
    {
        if c >= self.controls@.len() {
            None
        } else {
            match self.controls@[c].1.entry_of(gesture) {
                Some(entry) => Some(entry.action),
                None => self.first_action(gesture, c + 1),
            }
        }
    }

    fn find_control(&self, control: &ControlId) -> (place: usize)
        ensures
            place == self.control_place(*control, self.controls@.len() as int),
            place <= self.controls@.len(),
    {
        let mut place: usize = 0;
        let mut i: usize = 0;
        while i < self.controls.len()
            invariant
                i <= self.controls@.len(),
                place == self.control_place(*control, i as int),
                place <= i,
            decreases self.controls@.len() - i,
        {
            if place == i && !crate::text::text_equals(
                self.controls[i].0.as_str(),
                control.as_str(),
            ) {
                place = i + 1;
            }
            i = i + 1;
        }
        place
    }
}

/// What a scope selection changes.
pub open spec fn selection_summary() -> ActionSummary {
    ActionSummary {
        affected_owner_count: 0,
        acknowledged_owner_count: 0,
        recomputed_devices: 0,
        durable_state_changed: true,
    }
}

impl EngineModel {
    /// The scope that an entry aims at.
    pub open spec fn aim(self, control: ControlId, target: ScopeTarget) -> Result<
        Scope,
        RuntimeError,
    > {
        match target {
            ScopeTarget::Explicit(scope) => Ok(scope),
            ScopeTarget::SelectedScope => if self.controls.contains_key(control.key()) {
                Ok(self.controls[control.key()].selected_scope)
            } else {
                Err(RuntimeError::State(StateError::UnknownControl(control)))
            },
        }
    }

    /// A control selects a scope.
    pub open spec fn selected(self, control: ControlId, scope: Scope) -> (
        EngineModel,
        Result<ActionSummary, RuntimeError>,
    ) {
        if !self.scopes.contains_key(scope.key()) {
            (self, Err(RuntimeError::State(StateError::UnknownScope(scope))))
        } else if !self.controls.contains_key(control.key()) {
            (self, Err(RuntimeError::State(StateError::UnknownControl(control))))
        } else {
            (
                EngineModel {
                    controls: self.controls.insert(
                        control.key(),
                        ControlState { selected_scope: scope },
                    ),
                    ..self
                },
                Ok(selection_summary()),
            )
        }
    }

    /// One gesture is carried out; a gesture without an entry does nothing.
    #[verifier::opaque]
    pub open spec fn gestured(
        self,
        plan: HousePlan,
        almanac: SolarAlmanac,
        control: ControlId,
        gesture: Gesture,
        now: RuntimeInstant,
    ) -> (EngineModel, Result<Option<ActionSummary>, RuntimeError>) {
        match plan.entry_of(control, gesture) {
            Err(error) => (self, Err(error)),
            Ok(None) => (self, Ok(None)),
            Ok(Some(entry)) => match self.aim(control, entry.target) {
                Err(error) => (self, Err(error)),
                Ok(target) => {
                    let (after, result) = if entry.action is SelectScope {
                        self.selected(control, target)
                    } else {
                        self.acted(plan, almanac, entry.action, target, now)
                    };
                    match result {
                        Ok(summary) => (after, Ok(Some(summary))),
                        Err(error) => (after, Err(error)),
                    }
                },
            },
        }
    }

    /// The first `n` gestures are carried out.
    pub open spec fn classified(
        self,
        plan: HousePlan,
        almanac: SolarAlmanac,
        gestures: Seq<(ControlId, Gesture)>,
        now: RuntimeInstant,
        n: int,
    ) -> (EngineModel, Result<Seq<ActionSummary>, RuntimeError>)
        decreases n,
    {
        if n <= 0 {
            (self, Ok(Seq::empty()))
        } else {
            let (before, outcomes) = self.classified(plan, almanac, gestures, now, n - 1);
            match outcomes {
                Err(error) => (before, Err(error)),
                Ok(list) => {
                    let (control, gesture) = gestures[n - 1];
                    let (after, result) = before.gestured(plan, almanac, control, gesture, now);
                    match result {
                        Err(error) => (after, Err(error)),
                        Ok(Some(summary)) => (after, Ok(list.push(summary))),
                        Ok(None) => (after, Ok(list)),
                    }
                },
            }
        }
    }
}

proof fn lemma_classified_fault(
    model: EngineModel,
    plan: &HousePlan,
    almanac: &SolarAlmanac,
    gestures: Seq<(ControlId, Gesture)>,
    now: RuntimeInstant,
    m: int,
    n: int,
)
    requires
        0 <= m <= n,
        model.classified(*plan, *almanac, gestures, now, m).1 is Err,
    ensures
        model.classified(*plan, *almanac, gestures, now, n) == model.classified(
            *plan,
            *almanac,
            gestures,
            now,
            m,
        ),
    decreases n,
{
    if m < n {
        lemma_classified_fault(model, plan, almanac, gestures, now, m, n - 1);
    }
}

/// The engine and the outcomes are those expected.
pub open spec fn carried_out(
    expected: (EngineModel, Result<Seq<ActionSummary>, RuntimeError>),
    after: EngineModel,
    result: Result<Vec<ActionSummary>, RuntimeError>,
) -> bool {
    &&& after == expected.0
    &&& match expected.1 {
        Ok(list) => result matches Ok(outcomes) && outcomes@ == list,
        Err(error) => result == Err::<Vec<ActionSummary>, RuntimeError>(error),
    }
}

/// One input event has been taken in: the gestures that it completes, after those
/// that were due, are carried out in order.
pub open spec fn input_taken(
    was: HouseEngine,
    now_is: HouseEngine,
    control: ControlId,
    event: RawInputEvent,
    now: RuntimeInstant,
    result: Result<Vec<ActionSummary>, RuntimeError>,
) -> bool {
    let before = was.classifier;
    let after = now_is.classifier;
    if before.regressed(now.monotonic) {
        &&& result == Err::<Vec<ActionSummary>, RuntimeError>(
            RuntimeError::Input(InputError::MonotonicClockRegressed),
        )
        &&& now_is@ == was@
        &&& now_is.same_clicks(was)
    } else if before.overflows(control.key(), event, now.monotonic) {
        &&& result == Err::<Vec<ActionSummary>, RuntimeError>(
            RuntimeError::Input(InputError::DeadlineOverflow),
        )
        &&& now_is@ == was@
        &&& now_is.same_clicks(was)
    } else {
        let gestures = crate::input::due_events(
            before.pending.pairs(),
            now.monotonic,
        ) + before.gestures_of(control, event, now.monotonic);
        &&& carried_out(
            was@.classified(
                *was.plan,
                *was.almanac,
                gestures,
                now,
                gestures.len() as int,
            ),
            now_is@,
            result,
        )
        &&& after.window == before.window
        &&& after.hold == before.hold
        &&& after.pending.pairs() == before.pending_after(
            control,
            event,
            now.monotonic,
        )
        &&& after.last_observed == Some(now.monotonic)
    }
}

/// The clicks that were due have been carried out in order.
pub open spec fn input_flushed(
    was: HouseEngine,
    now_is: HouseEngine,
    now: RuntimeInstant,
    result: Result<Vec<ActionSummary>, RuntimeError>,
) -> bool {
    let before = was.classifier;
    let after = now_is.classifier;
    if before.regressed(now.monotonic) {
        &&& result == Err::<Vec<ActionSummary>, RuntimeError>(
            RuntimeError::Input(InputError::MonotonicClockRegressed),
        )
        &&& now_is@ == was@
        &&& now_is.same_clicks(was)
    } else {
        let gestures = crate::input::due_events(
            before.pending.pairs(),
            now.monotonic,
        );
        &&& carried_out(
            was@.classified(
                *was.plan,
                *was.almanac,
                gestures,
                now,
                gestures.len() as int,
            ),
            now_is@,
            result,
        )
        &&& after.window == before.window
        &&& after.hold == before.hold
        &&& after.pending.pairs() == crate::input::selected_clicks(
            before.pending.pairs(),
            now.monotonic,
            false,
        )
        &&& after.last_observed == Some(now.monotonic)
    }
}

impl HouseEngine {
    fn apply_gesture(&mut self, control: &ControlId, gesture: Gesture, now: RuntimeInstant) -> (result:
        Result<Option<ActionSummary>, RuntimeError>)
        requires
            old(self).wf(),
            now.wf(),
        ensures
            became(
                old(self)@.gestured(
                    *old(self).plan,
                    *old(self).almanac,
                    *control,
                    gesture,
                    now,
                ),
                final(self)@,
                result,
            ),
            final(self).wf(),
            final(self).same_house(*old(self)),
            final(self).same_clicks(*old(self)),
    {
        proof {
            reveal(EngineModel::gestured);
        }
        let place: usize = self.plan.find_control(control);
        if place >= self.plan.controls.len() {
            return Err(RuntimeError::UnknownControl);
        }
        let entry = match self.plan.controls[place].1.entry(gesture) {
            Some(entry) => entry.clone(),
            None => return Ok(None),
        };
        let target = match entry.target() {
            ScopeTarget::SelectedScope => match self.state.control_state(control) {
                Ok(state) => state.selected_scope().clone(),
                Err(error) => return Err(RuntimeError::State(error)),
            },
            ScopeTarget::Explicit(scope) => scope.clone(),
        };
        if entry.action().is_select_scope() {
            return match self.state.select_control_scope(control, target) {
                Ok(()) => Ok(
                    Some(
                        ActionSummary {
                            affected_owner_count: 0,
                            acknowledged_owner_count: 0,
                            recomputed_devices: 0,
                            durable_state_changed: true,
                        },
                    ),
                ),
                Err(error) => Err(RuntimeError::State(error)),
            };
        }
        match self.apply_action(entry.action(), &target, now) {
            Ok(summary) => Ok(Some(summary)),
            Err(error) => Err(error),
        }
    }

    fn apply_classified(&mut self, classified: &Vec<(ControlId, Gesture)>, now: RuntimeInstant) -> (result:
        Result<Vec<ActionSummary>, RuntimeError>)
        requires
            old(self).wf(),
            now.wf(),
        ensures
            carried_out(
                old(self)@.classified(
                    *old(self).plan,
                    *old(self).almanac,
                    classified@,
                    now,
                    classified@.len() as int,
                ),
                final(self)@,
                result,
            ),
            final(self).wf(),
            final(self).same_house(*old(self)),
            final(self).same_clicks(*old(self)),
    {
        let mut outcomes: Vec<ActionSummary> = Vec::new();
        let ghost start = self@;
        let mut i: usize = 0;
        while i < classified.len()
            invariant
                i <= classified@.len(),
                start == old(self)@,
                self.wf(),
                now.wf(),
                self.same_house(*old(self)),
                self.same_clicks(*old(self)),
                start.classified(*self.plan, *self.almanac, classified@, now, i as int) == (
                    self@,
                    Ok::<Seq<ActionSummary>, RuntimeError>(outcomes@),
                ),
            decreases classified@.len() - i,
        {
            match self.apply_gesture(&classified[i].0, classified[i].1, now) {
                Ok(Some(summary)) => {
                    outcomes.push(summary);
                },
                Ok(None) => {},
                Err(error) => {
                    proof {
                        lemma_classified_fault(
                            start,
                            &*self.plan,
                            &*self.almanac,
                            classified@,
                            now,
                            i + 1,
                            classified@.len() as int,
                        );
                    }
                    return Err(error);
                },
            }
            i = i + 1;
        }
        Ok(outcomes)
    }

    /// Takes in one input event and carries out the gestures that it completes.
    pub fn handle_input(&mut self, control: ControlId, event: RawInputEvent, now: RuntimeInstant) -> (result:
        Result<Vec<ActionSummary>, RuntimeError>)
        requires
            old(self).wf(),
            now.wf(),
        ensures
            input_taken(*old(self), *final(self), control, event, now, result),
            final(self).wf(),
            final(self).same_house(*old(self)),
    {
        let classified = match self.classifier.ingest(control, event, now.monotonic) {
            Ok(classified) => classified,
            Err(error) => return Err(RuntimeError::Input(error)),
        };
        self.apply_classified(&classified, now)
    }

    /// Carries out the single clicks whose time is over.
    pub fn flush_input(&mut self, now: RuntimeInstant) -> (result: Result<
        Vec<ActionSummary>,
        RuntimeError,
    >)
        requires
            old(self).wf(),
            now.wf(),
        ensures
            input_flushed(*old(self), *final(self), now, result),
            final(self).wf(),
            final(self).same_house(*old(self)),
    {
        let classified = match self.classifier.flush_due(now.monotonic) {
            Ok(classified) => classified,
            Err(error) => return Err(RuntimeError::Input(error)),
        };
        self.apply_classified(&classified, now)
    }

    /// Carries out, on `target`, the action of the first control that has one for
    /// the gesture.
    pub fn apply_gesture_for_scope(
        &mut self,
        gesture: Gesture,
        target: &Scope,
        now: RuntimeInstant,
    ) -> (result: Result<ActionSummary, RuntimeError>)
        requires
            old(self).wf(),
            now.wf(),
        ensures
            match old(self).plan.first_action(gesture, 0) {
                None => final(self)@ == old(self)@ && result == Err::<ActionSummary, RuntimeError>(
                    RuntimeError::UnmappedGesture,
                ),
                Some(action) => became(
                    old(self)@.acted(*old(self).plan, *old(self).almanac, action, *target, now),
                    final(self)@,
                    result,
                ),
            },
            final(self).wf(),
            final(self).same_house(*old(self)),
            final(self).same_clicks(*old(self)),
    {
        let mut found: Option<Action> = None;
        let mut c: usize = 0;
        while c < self.plan.controls.len() && found.is_none()
            invariant
                c <= self.plan.controls@.len(),
                self.plan.wf(),
                found is None ==> self.plan.first_action(gesture, 0) == self.plan.first_action(
                    gesture,
                    c as int,
                ),
                found matches Some(action) ==> self.plan.first_action(gesture, 0) == Some(action),
            decreases self.plan.controls@.len() - c,
        {
            match self.plan.controls[c].1.entry(gesture) {
                Some(entry) => {
                    found = Some(entry.action());
                },
                None => {},
            }
            c = c + 1;
        }
        match found {
            Some(action) => self.apply_action(action, target, now),
            None => Err(RuntimeError::UnmappedGesture),
        }
    }
}

// Time.

/// The first `n` overlay sets once `request` has started on each, up to the first
/// that refuses it.
pub open spec fn started(
    overlays: Seq<OverlayModel>,
    request: OverlayRequest,
    now: MonotonicTime,
    n: int,
) -> (Seq<OverlayModel>, Option<OverlayError>)
    decreases n,
{
    if n <= 0 {
        (overlays, None)
    } else {
        let (before, fault) = started(overlays, request, now, n - 1);
        if fault is Some {
            (before, fault)
        } else {
            let (next, result) = before[n - 1].with_request(request, now);
            match result {
                Ok(()) => (before.update(n - 1, next), None),
                Err(error) => (before.update(n - 1, next), Some(error)),
            }
        }
    }
}

proof fn lemma_started_fault(
    overlays: Seq<OverlayModel>,
    request: OverlayRequest,
    now: MonotonicTime,
    m: int,
    n: int,
)
    requires
        0 <= m <= n,
        started(overlays, request, now, m).1 is Some,
    ensures
        started(overlays, request, now, n) == started(overlays, request, now, m),
    decreases n,
{
    if m < n {
        lemma_started_fault(overlays, request, now, m, n - 1);
    }
}

impl HousePlan {
    /// Length of the hourly overlay in seconds.
    pub open spec fn hour_seconds(self) -> Double {
        Double::of_nat(self.whole_hour.duration_ms as nat).quotient(
            Double { bits: crate::config::MILLISECONDS },
        )
    }

    /// The hourly overlay.
    pub open spec fn hour_request(self) -> Result<OverlayRequest, OverlayError> {
        if !self.whole_hour.brightness_delta.finite() {
            Err(OverlayError::NonFinite)
        } else {
            match OverlayDuration::checked(self.hour_seconds()) {
                Ok(duration) => Ok(
                    OverlayRequest {
                        id: self.whole_hour_id,
                        effect: OverlayEffect::BrightnessDelta(self.whole_hour.brightness_delta),
                        priority: self.whole_hour.priority,
                        duration,
                    },
                ),
                Err(error) => Err(error),
            }
        }
    }
}

impl EngineModel {
    /// The hourly overlay starts on every owner, and all targets follow.
    pub open spec fn struck(self, plan: HousePlan, almanac: SolarAlmanac, now: RuntimeInstant) -> (
        EngineModel,
        Result<usize, RuntimeError>,
    ) {
        match plan.hour_request() {
            Err(error) => (self, Err(RuntimeError::Overlay(error))),
            Ok(request) => {
                let (overlays, fault) = started(
                    self.overlays,
                    request,
                    now.monotonic,
                    plan.owners@.len() as int,
                );
                let next = EngineModel { overlays, ..self };
                match fault {
                    Some(error) => (next, Err(RuntimeError::Overlay(error))),
                    None => {
                        let (after, result) = next.recomputed(plan, almanac, now, true);
                        match result {
                            Ok(actions) => (
                                after.queued(actions),
                                Ok(plan.devices@.len() as usize),
                            ),
                            Err(error) => (after, Err(error)),
                        }
                    },
                }
            },
        }
    }

    /// The daily reset, where it is due; whether it was.
    pub open spec fn reset(self, plan: HousePlan, almanac: SolarAlmanac, now: RuntimeInstant) -> (
        EngineModel,
        Result<bool, RuntimeError>,
    ) {
        match crate::state::scheduled_reset(
            now.local_date,
            now.local_time,
            plan.circadian.daily_reset_time,
        ) {
            Err(error) => (self, Err(RuntimeError::State(error))),
            Ok(day) => if self.last_reset_date matches Some(last) && last.not_before(day) {
                (self, Ok(false))
            } else {
                let marked = self.last_reset_date is None && now.local_time.seconds
                    < plan.circadian.daily_reset_time.seconds;
                let next = EngineModel {
                    scopes: if marked {
                        self.scopes
                    } else {
                        crate::state::all_unfrozen(
                            self.scopes,
                            now.monotonic,
                            plan.circadian.convergence_duration,
                        )
                    },
                    last_reset_date: Some(day),
                    ..self
                };
                let (after, result) = next.recomputed(plan, almanac, now, true);
                match result {
                    Ok(actions) => (after.queued(actions), Ok(true)),
                    Err(error) => (after, Err(error)),
                }
            },
        }
    }
}

impl HouseEngine {
    fn start_overlays(&mut self, request: &OverlayRequest, now: MonotonicTime) -> (result: Result<
        (),
        RuntimeError,
    >)
        requires
            old(self).wf(),
        ensures
            ({
                let (overlays, fault) = started(
                    old(self)@.overlays,
                    *request,
                    now,
                    old(self).plan.owners@.len() as int,
                );
                &&& final(self)@ == (EngineModel { overlays, ..old(self)@ })
                &&& match fault {
                    Some(error) => result == Err::<(), RuntimeError>(RuntimeError::Overlay(error)),
                    None => result is Ok,
                }
            }),
            final(self).wf(),
            final(self).same_house(*old(self)),
            final(self).same_clicks(*old(self)),
            final(self).state == old(self).state,
    {
        let ghost start = self@.overlays;
        let count: usize = self.overlays.len();
        let mut k: usize = 0;
        while k < count
            invariant
                k <= count,
                count == self.plan.owners@.len(),
                self.wf(),
                self.same_house(*old(self)),
                self.same_clicks(*old(self)),
                self.state == old(self).state,
                start == old(self)@.overlays,
                started(start, *request, now, k as int) == (
                    self@.overlays,
                    None::<OverlayError>,
                ),
                self@ == (EngineModel { overlays: self@.overlays, ..old(self)@ }),
            decreases count - k,
        {
            let ghost before = self.overlays@;
            assert(overlay_models(before)[k as int] == before[k as int].model());
            let result = self.overlays[k].insert(
                request.id.clone(),
                request.effect,
                request.priority,
                now,
                request.duration,
            );
            assert(overlay_models(self.overlays@) =~= overlay_models(before).update(
                k as int,
                self.overlays@[k as int].model(),
            ));
            match result {
                Ok(()) => {},
                Err(error) => {
                    proof {
                        lemma_started_fault(start, *request, now, k + 1, count as int);
                    }
                    return Err(RuntimeError::Overlay(error));
                },
            }
            k = k + 1;
        }
        Ok(())
    }

    /// Starts the hourly overlay on every owner.
    pub fn start_whole_hour_overlay(&mut self, now: RuntimeInstant) -> (result: Result<
        usize,
        RuntimeError,
    >)
        requires
            old(self).wf(),
            now.wf(),
        ensures
            became(
                old(self)@.struck(*old(self).plan, *old(self).almanac, now),
                final(self)@,
                result,
            ),
            final(self).wf(),
            final(self).same_house(*old(self)),
            final(self).same_clicks(*old(self)),
            final(self).state == old(self).state,
    {
        let effect = match OverlayEffect::brightness_delta(self.plan.whole_hour.brightness_delta) {
            Ok(effect) => effect,
            Err(error) => return Err(RuntimeError::Overlay(error)),
        };
        let seconds = Double::from_u64(self.plan.whole_hour.duration_ms).over(
            Double::from_bits(crate::config::MILLISECONDS),
        );
        let duration = match OverlayDuration::from_seconds(seconds) {
            Ok(duration) => duration,
            Err(error) => return Err(RuntimeError::Overlay(error)),
        };
        let request = OverlayRequest::new(
            self.plan.whole_hour_id.clone(),
            effect,
            self.plan.whole_hour.priority,
            duration,
        );
        match self.start_overlays(&request, now.monotonic) {
            Ok(()) => {},
            Err(error) => return Err(error),
        }
        let (actions, count) = match self.recompute_desired(now) {
            Ok(found) => found,
            Err(error) => return Err(error),
        };
        self.queue_reconcile_actions(actions);
        Ok(count)
    }

    /// Carries out the daily reset where it is due.
    pub fn reset_if_due(&mut self, now: RuntimeInstant) -> (result: Result<bool, RuntimeError>)
        requires
            old(self).wf(),
            now.wf(),
        ensures
            became(
                old(self)@.reset(*old(self).plan, *old(self).almanac, now),
                final(self)@,
                result,
            ),
            final(self).wf(),
            final(self).same_house(*old(self)),
            final(self).same_clicks(*old(self)),
    {
        let mut next = self.state.copied();
        let outcome = match next.reset_circadian_if_due(
            now.local_date,
            now.local_time,
            self.plan.circadian.daily_reset_time,
            now.monotonic,
            self.plan.circadian.convergence_duration,
        ) {
            Ok(outcome) => outcome,
            Err(error) => return Err(RuntimeError::State(error)),
        };
        if outcome.durable_state_changed() {
            self.state = next;
            let (actions, _) = match self.recompute_desired(now) {
                Ok(found) => found,
                Err(error) => return Err(error),
            };
            self.queue_reconcile_actions(actions);
            return Ok(true);
        }
        Ok(false)
    }
}

// Looking at the house.

/// What the last of the first `n` aliases with this name stands for; the name
/// itself where there is none.
pub open spec fn alias_of(aliases: Seq<(DeviceId, DeviceId)>, device: DeviceId, n: int) -> DeviceId
    decreases n,
{
    if n <= 0 {
        device
    } else if aliases[n - 1].0.text@ == device.text@ {
        aliases[n - 1].1
    } else {
        alias_of(aliases, device, n - 1)
    }
}

impl HousePlan {
    /// The name that a device goes by.
    pub open spec fn proper(self, device: DeviceId) -> DeviceId {
        alias_of(self.aliases@, device, self.aliases@.len() as int)
    }

    /// First place, from `i` on, of a light with this name.
    pub open spec fn light_place(self, name: Seq<char>, i: int) -> Option<int>
        decreases self.devices@.len() - i,
    {
        if i >= self.devices@.len() {
            None
        } else if self.devices@[i].id.text@ == name {
            Some(i)
        } else {
            self.light_place(name, i + 1)
        }
    }

    fn find_light(&self, device: &DeviceId) -> (result: Option<usize>)
        ensures
            match result {
                Some(i) => i < self.devices@.len() && self.light_place(
                    self.proper(*device).text@,
                    0,
                ) == Some(i as int),
                None => self.light_place(self.proper(*device).text@, 0) is None,
            },
    {
        let mut n: usize = self.aliases.len();
        let mut name = device;
        while n > 0
            invariant_except_break
                name == device,
                n <= self.aliases@.len(),
                alias_of(self.aliases@, *device, n as int) == self.proper(*device),
            ensures
                *name == self.proper(*device),
            decreases n,
        {
            if crate::text::text_equals(self.aliases[n - 1].0.as_str(), device.as_str()) {
                name = &self.aliases[n - 1].1;
                break;
            }
            n = n - 1;
        }
        let mut i: usize = 0;
        while i < self.devices.len()
            invariant
                i <= self.devices@.len(),
                self.light_place(name.text@, 0) == self.light_place(name.text@, i as int),
                *name == self.proper(*device),
            decreases self.devices@.len() - i,
        {
            if crate::text::text_equals(self.devices[i].id.as_str(), name.as_str()) {
                return Some(i);
            }
            i = i + 1;
        }
        None
    }

    /// First of the first `n` owners whose scope is not among `scopes`.
    pub open spec fn stray_owner(self, scopes: Map<Seq<u8>, ScopeState>, n: int) -> Option<int>
        decreases n,
    {
        if n <= 0 {
            None
        } else if self.stray_owner(scopes, n - 1) is Some {
            self.stray_owner(scopes, n - 1)
        } else if scopes.contains_key(self.owners@[n - 1].key()) {
            None
        } else {
            Some(n - 1)
        }
    }
}

proof fn lemma_stray_stays(plan: &HousePlan, scopes: Map<Seq<u8>, ScopeState>, m: int, n: int)
    requires
        0 <= m <= n,
        plan.stray_owner(scopes, m) is Some,
    ensures
        plan.stray_owner(scopes, n) == plan.stray_owner(scopes, m),
    decreases n,
{
    if m < n {
        lemma_stray_stays(plan, scopes, m, n - 1);
    }
}

/// `time` is one of the moments at which something passes on its own.
pub open spec fn passes_at(engine: HouseEngine, time: MonotonicTime) -> bool {
    ||| exists|i: int|
        0 <= i < engine.classifier.pending.pairs().len() && (
        #[trigger] engine.classifier.pending.pairs()[i]).1.resolves == time.value
    ||| exists|k: int|
        0 <= k < engine.overlays@.len() && #[trigger] overlay_ends_at(engine.overlays@[k], time)
    ||| crate::reconciler::earliest(engine.reconciler@) == Some(time)
}

pub open spec fn overlay_ends_at(set: OverlaySet, time: MonotonicTime) -> bool {
    exists|i: int|
        0 <= i < set.overlays.pairs().len() && (#[trigger] set.overlays.pairs()[i]).1.expires_at
            == time.value
}

/// No overlay of the set ends before `time`.
pub open spec fn overlays_last(set: OverlaySet, time: MonotonicTime) -> bool {
    forall|i: int|
        0 <= i < set.overlays.pairs().len() ==> !(
        #[trigger] set.overlays.pairs()[i]).1.expires_at.less(time.value)
}

/// Nothing passes on its own before `time`.
pub open spec fn quiet_until(engine: HouseEngine, time: MonotonicTime) -> bool {
    &&& forall|i: int|
        0 <= i < engine.classifier.pending.pairs().len() ==> !(
        #[trigger] engine.classifier.pending.pairs()[i]).1.resolves.less(time.value)
    &&& forall|k: int|
        0 <= k < engine.overlays@.len() ==> #[trigger] overlays_last(engine.overlays@[k], time)
    &&& crate::reconciler::earliest(engine.reconciler@) matches Some(deadline)
        ==> !deadline.value.less(time.value)
}

/// Nothing will pass on its own.
pub open spec fn at_rest(engine: HouseEngine) -> bool {
    &&& engine.classifier.pending.pairs().len() == 0
    &&& forall|k: int|
        0 <= k < engine.overlays@.len() ==> (
        #[trigger] engine.overlays@[k]).overlays.pairs().len() == 0
    &&& crate::reconciler::earliest(engine.reconciler@) is None
}

proof fn lemma_overlays_last(set: OverlaySet, late: MonotonicTime, time: MonotonicTime)
    requires
        overlays_last(set, late),
        time == late || time.value.less(late.value),
    ensures
        overlays_last(set, time),
{
}

/// The earliest of `best` and the ends of a set of overlays.
fn sooner_expiry(set: &OverlaySet, best: Option<MonotonicTime>) -> (result: Option<MonotonicTime>)
    ensures
        match result {
            Some(time) => {
                &&& best == Some(time) || overlay_ends_at(*set, time)
                &&& overlays_last(*set, time)
                &&& best matches Some(earlier) ==> time == earlier || time.value.less(earlier.value)
            },
            None => best is None && set.overlays.pairs().len() == 0,
        },
{
    let count: usize = set.overlays.len();
    let mut found = best;
    let mut i: usize = 0;
    while i < count
        invariant
            i <= count,
            count == set.overlays.pairs().len(),
            match found {
                Some(time) => {
                    &&& best == Some(time) || overlay_ends_at(*set, time)
                    &&& forall|j: int|
                        0 <= j < i ==> !(
                        #[trigger] set.overlays.pairs()[j]).1.expires_at.less(time.value)
                    &&& best matches Some(earlier) ==> time == earlier || time.value.less(
                        earlier.value,
                    )
                },
                None => best is None && i == 0,
            },
        decreases count - i,
    {
        let candidate = set.overlays.value_at(i).expires_at;
        let sooner = match found {
            Some(time) => candidate.lt(time.value),
            None => true,
        };
        if sooner {
            let time = MonotonicTime { value: candidate };
            assert(set.overlays.pairs()[i as int].1.expires_at == time.value);
            found = Some(time);
        }
        i = i + 1;
    }
    found
}

impl HouseEngine {
    pub fn state(&self) -> (state: &AutomationState)
        ensures
            *state == self.state,
    {
        &self.state
    }

    pub fn startup_state_changed(&self) -> (changed: bool)
        ensures
            changed == self.startup_state_changed,
    {
        self.startup_state_changed
    }

    /// The scope that rules a light.
    pub fn owner_scope(&self, device: &DeviceId) -> (result: Result<&Scope, RuntimeError>)
        requires
            self.wf(),
        ensures
            match self.plan.light_place(self.plan.proper(*device).text@, 0) {
                Some(i) => result matches Ok(scope) && *scope
                    == self.plan.owners@[self.plan.devices@[i].owner as int],
                None => result matches Err(RuntimeError::UnknownDevice),
            },
    {
        match self.plan.find_light(device) {
            Some(i) => {
                let owner: usize = self.plan.devices[i].owner;
                Ok(&self.plan.owners[owner])
            },
            None => Err(RuntimeError::UnknownDevice),
        }
    }

    /// The target that a light was last given.
    pub fn target(&self, device: &DeviceId) -> (target: Option<LightTarget>)
        requires
            self.wf(),
        ensures
            target == match self.plan.light_place(self.plan.proper(*device).text@, 0) {
                Some(i) => self@.last_targets[i],
                None => None,
            },
    {
        match self.plan.find_light(device) {
            Some(i) => self.last_targets[i],
            None => None,
        }
    }

    /// The owners in order, each with its state.
    pub fn owner_states(&self) -> (result: Result<Vec<(&Scope, &ScopeState)>, RuntimeError>)
        ensures
            match self.plan.stray_owner(self@.scopes, self.plan.owners@.len() as int) {
                Some(k) => result == Err::<Vec<(&Scope, &ScopeState)>, RuntimeError>(
                    RuntimeError::State(StateError::UnknownScope(self.plan.owners@[k])),
                ),
                None => result matches Ok(states) && states@.len() == self.plan.owners@.len()
                    && forall|k: int|
                    0 <= k < states@.len() ==> *(#[trigger] states@[k]).0 == self.plan.owners@[k]
                        && *states@[k].1 == self@.scopes[self.plan.owners@[k].key()],
            },
    {
        let mut states: Vec<(&Scope, &ScopeState)> = Vec::new();
        let mut k: usize = 0;
        while k < self.plan.owners.len()
            invariant
                k <= self.plan.owners@.len(),
                states@.len() == k,
                self.plan.stray_owner(self@.scopes, k as int) is None,
                forall|j: int|
                    0 <= j < k ==> *(#[trigger] states@[j]).0 == self.plan.owners@[j]
                        && *states@[j].1 == self@.scopes[self.plan.owners@[j].key()],
            decreases self.plan.owners@.len() - k,
        {
            match self.state.scope_state(&self.plan.owners[k]) {
                Ok(state) => {
                    states.push((&self.plan.owners[k], state));
                },
                Err(error) => {
                    proof {
                        lemma_stray_stays(
                            &*self.plan,
                            self@.scopes,
                            k + 1,
                            self.plan.owners@.len() as int,
                        );
                    }
                    return Err(RuntimeError::State(error));
                },
            }
            k = k + 1;
        }
        Ok(states)
    }

    /// Hands over the actions that wait.
    pub fn take_reconcile_actions(&mut self) -> (actions: Vec<ReconcileAction>)
        ensures
            actions@ == old(self)@.pending,
            final(self)@ == (EngineModel { pending: Seq::empty(), ..old(self)@ }),
            old(self).wf() ==> final(self).wf(),
            final(self).same_house(*old(self)),
            final(self).same_clicks(*old(self)),
    {
        let mut actions: Vec<ReconcileAction> = Vec::new();
        std::mem::swap(&mut actions, &mut self.pending_actions);
        actions
    }

    pub fn mqtt_settings(&self) -> (settings: &MqttSettings)
        ensures
            *settings == *self.mqtt,
    {
        &self.mqtt
    }

    pub fn adapter(&self) -> (adapter: &Zigbee2MqttAdapter)
        ensures
            *adapter == *self.adapter,
    {
        &self.adapter
    }

    pub fn reconciler_mut(&mut self) -> (reconciler: &mut Reconciler)
        ensures
            *reconciler == old(self).reconciler,
            *final(self) == (HouseEngine { reconciler: *final(reconciler), ..*old(self) }),
    {
        &mut self.reconciler
    }

    pub fn whole_hour(&self) -> (settings: WholeHourSettings)
        ensures
            settings == self.plan.whole_hour,
    {
        self.plan.whole_hour
    }

    pub fn reconciliation_timing(&self) -> (timing: ReconciliationTiming)
        ensures
            timing == self.plan.reconciliation_timing,
    {
        self.plan.reconciliation_timing
    }

    pub fn circadian(&self) -> (settings: CircadianSettings)
        ensures
            settings == self.plan.circadian,
    {
        self.plan.circadian
    }

    /// The next moment at which a click, an overlay or a retry falls due.
    pub fn next_transient_deadline(&self) -> (deadline: Option<MonotonicTime>)
        ensures
            match deadline {
                Some(time) => passes_at(*self, time) && quiet_until(*self, time),
                None => at_rest(*self),
            },
    {
        let clicks = self.classifier.next_deadline();
        let mut best = clicks;
        let mut k: usize = 0;
        while k < self.overlays.len()
            invariant
                k <= self.overlays@.len(),
                match best {
                    Some(time) => {
                        &&& (exists|i: int|
                            0 <= i < self.classifier.pending.pairs().len() && (
                            #[trigger] self.classifier.pending.pairs()[i]).1.resolves
                                == time.value) || (exists|j: int|
                            0 <= j < k && #[trigger] overlay_ends_at(self.overlays@[j], time))
                        &&& forall|i: int|
                            0 <= i < self.classifier.pending.pairs().len() ==> !(
                            #[trigger] self.classifier.pending.pairs()[i]).1.resolves.less(
                                time.value,
                            )
                        &&& forall|j: int|
                            0 <= j < k ==> #[trigger] overlays_last(self.overlays@[j], time)
                    },
                    None => {
                        &&& self.classifier.pending.pairs().len() == 0
                        &&& forall|j: int|
                            0 <= j < k ==> (
                            #[trigger] self.overlays@[j]).overlays.pairs().len() == 0
                    },
                },
            decreases self.overlays@.len() - k,
        {
            let ghost before = best;
            best = sooner_expiry(&self.overlays[k], best);
            proof {
                if let (Some(earlier), Some(time)) = (before, best) {
                    assert forall|j: int| 0 <= j < k implies #[trigger] overlays_last(
                        self.overlays@[j],
                        time,
                    ) by {
                        lemma_overlays_last(self.overlays@[j], earlier, time);
                    }
                }
            }
            k = k + 1;
        }
        let ghost before = best;
        proof {
            if let (Some(earlier), Some(time)) = (before, crate::reconciler::earliest(
                self.reconciler@,
            )) {
                if time.value.less(earlier.value) {
                    assert forall|j: int| 0 <= j < k implies #[trigger] overlays_last(
                        self.overlays@[j],
                        time,
                    ) by {
                        lemma_overlays_last(self.overlays@[j], earlier, time);
                    }
                }
            }
        }
        match self.reconciler.next_deadline() {
            Some(time) => Some(
                match best {
                    Some(other) => if time.value.lt(other.value) {
                        time
                    } else {
                        other
                    },
                    None => time,
                },
            ),
            None => best,
        }
    }

    /// The days whose sun the house needs on `date`.
    pub fn needed_days(&self, date: LocalDate) -> (days: Vec<LocalDate>)
        ensures
            days@ == self.plan.sun_days(date, self.plan.curves@.len() as int),
    {
        let mut days: Vec<LocalDate> = Vec::new();
        let mut c: usize = 0;
        while c < self.plan.curves.len()
            invariant
                c <= self.plan.curves@.len(),
                days@ == self.plan.sun_days(date, c as int),
            decreases self.plan.curves@.len() - c,
        {
            if let Some(day) = self.plan.curves[c].schedule.needed_day(date) {
                days.push(day);
            }
            c = c + 1;
        }
        days
    }

    /// Replaces what is known of the sun.
    pub fn set_almanac(&mut self, almanac: SolarAlmanac)
        requires
            old(self).wf(),
        ensures
            final(self)@ == old(self)@,
            *final(self).almanac == almanac,
            final(self).plan == old(self).plan,
            final(self).adapter == old(self).adapter,
            final(self).mqtt == old(self).mqtt,
            final(self).startup_state_changed == old(self).startup_state_changed,
            final(self).same_clicks(*old(self)),
            final(self).wf(),
    {
        self.almanac = Arc::new(almanac);
    }

    /// A copy to try something on.
    pub fn copied(&self) -> (copy: Self)
        requires
            self.wf(),
        ensures
            copy@ == self@,
            copy.wf(),
            copy.same_house(*self),
            copy.same_clicks(*self),
    {
        let mut targets: Vec<Option<LightTarget>> = Vec::new();
        let mut times: Vec<Option<MonotonicTime>> = Vec::new();
        let mut i: usize = 0;
        while i < self.last_targets.len()
            invariant
                i <= self.last_targets@.len(),
                self.last_targets@.len() == self.last_reconciled_at@.len(),
                targets@ == self.last_targets@.take(i as int),
                times@ == self.last_reconciled_at@.take(i as int),
            decreases self.last_targets@.len() - i,
        {
            targets.push(self.last_targets[i]);
            times.push(self.last_reconciled_at[i]);
            i = i + 1;
            assert(targets@ =~= self.last_targets@.take(i as int));
            assert(times@ =~= self.last_reconciled_at@.take(i as int));
        }
        assert(targets@ =~= self.last_targets@);
        assert(times@ =~= self.last_reconciled_at@);
        let mut pending: Vec<ReconcileAction> = Vec::new();
        let mut j: usize = 0;
        while j < self.pending_actions.len()
            invariant
                j <= self.pending_actions@.len(),
                pending@ == self.pending_actions@.take(j as int),
            decreases self.pending_actions@.len() - j,
        {
            pending.push(self.pending_actions[j].clone());
            j = j + 1;
            assert(pending@ =~= self.pending_actions@.take(j as int));
        }
        assert(pending@ =~= self.pending_actions@);
        let state = self.state.copied();
        let overlays = copied_overlays(&self.overlays);
        HouseEngine {
            plan: self.plan.clone(),
            adapter: self.adapter.clone(),
            mqtt: self.mqtt.clone(),
            almanac: self.almanac.clone(),
            state,
            startup_state_changed: self.startup_state_changed,
            overlays,
            classifier: self.classifier.copied(),
            reconciler: self.reconciler.copied(),
            last_targets: targets,
            last_reconciled_at: times,
            pending_actions: pending,
        }
    }
}

impl HousePlan {
    /// The days that the first `n` curves need on `date`.
    pub open spec fn sun_days(self, date: LocalDate, n: int) -> Seq<LocalDate>
        decreases n,
    {
        if n <= 0 {
            Seq::empty()
        } else {
            match self.curves@[n - 1].schedule.needed(date) {
                Some(day) => self.sun_days(date, n - 1).push(day),
                None => self.sun_days(date, n - 1),
            }
        }
    }
}

// Laws.

impl EngineModel {
    /// To compute targets changes nothing that is remembered.
    pub proof fn recomputation_keeps_the_state(
        self,
        plan: HousePlan,
        almanac: SolarAlmanac,
        now: RuntimeInstant,
        force: bool,
    )
        ensures
            self.recomputed(plan, almanac, now, force).0.scopes == self.scopes,
            self.recomputed(plan, almanac, now, force).0.controls == self.controls,
            self.recomputed(plan, almanac, now, force).0.last_reset_date == self.last_reset_date,
            self.recomputed(plan, almanac, now, force).0.pending == self.pending,
    {
    }

    /// Each daily reset happens once: asked for again at the same moment it is no
    /// longer due.
    pub proof fn reset_happens_once(
        self,
        plan: HousePlan,
        almanac: SolarAlmanac,
        now: RuntimeInstant,
    )
        requires
            now.wf(),
            self.reset(plan, almanac, now).1 == Ok::<bool, RuntimeError>(true),
        ensures
            ({
                let after = self.reset(plan, almanac, now).0;
                after.reset(plan, almanac, now) == (after, Ok::<bool, RuntimeError>(false))
            }),
    {
        let day = crate::state::scheduled_reset(
            now.local_date,
            now.local_time,
            plan.circadian.daily_reset_time,
        )->Ok_0;
        let marked = self.last_reset_date is None && now.local_time.seconds
            < plan.circadian.daily_reset_time.seconds;
        let next = EngineModel {
            scopes: if marked {
                self.scopes
            } else {
                crate::state::all_unfrozen(
                    self.scopes,
                    now.monotonic,
                    plan.circadian.convergence_duration,
                )
            },
            last_reset_date: Some(day),
            ..self
        };
        next.recomputation_keeps_the_state(plan, almanac, now, true);
        assert(self.reset(plan, almanac, now).0.last_reset_date == Some(day));
        assert(day.not_before(day));
    }

    /// A reset frees every scope, unless it only marks the first day.
    pub proof fn reset_frees_every_scope(
        self,
        plan: HousePlan,
        almanac: SolarAlmanac,
        now: RuntimeInstant,
        key: Seq<u8>,
    )
        requires
            self.reset(plan, almanac, now).1 == Ok::<bool, RuntimeError>(true),
            self.last_reset_date is Some || plan.circadian.daily_reset_time.seconds
                <= now.local_time.seconds,
            self.scopes.contains_key(key),
        ensures
            self.reset(plan, almanac, now).0.scopes.contains_key(key),
            !(self.reset(plan, almanac, now).0.scopes[key].mode is Frozen),
            self.reset(plan, almanac, now).0.scopes[key].on == self.scopes[key].on,
            self.reset(plan, almanac, now).0.scopes[key].offsets == self.scopes[key].offsets,
    {
        let day = crate::state::scheduled_reset(
            now.local_date,
            now.local_time,
            plan.circadian.daily_reset_time,
        )->Ok_0;
        let next = EngineModel {
            scopes: crate::state::all_unfrozen(
                self.scopes,
                now.monotonic,
                plan.circadian.convergence_duration,
            ),
            last_reset_date: Some(day),
            ..self
        };
        next.recomputation_keeps_the_state(plan, almanac, now, true);
    }

    /// What a control selects is what its next gesture aims at.
    pub proof fn selection_is_aimed_at(self, control: ControlId, scope: Scope)
        requires
            self.selected(control, scope).1 is Ok,
        ensures
            self.selected(control, scope).0.aim(control, ScopeTarget::SelectedScope) == Ok::<
                Scope,
                RuntimeError,
            >(scope),
            self.selected(control, scope).0.scopes == self.scopes,
    {
    }

    /// The hourly overlay leaves what is remembered alone.
    pub proof fn hour_keeps_the_state(
        self,
        plan: HousePlan,
        almanac: SolarAlmanac,
        now: RuntimeInstant,
    )
        ensures
            self.struck(plan, almanac, now).0.scopes == self.scopes,
            self.struck(plan, almanac, now).0.controls == self.controls,
            self.struck(plan, almanac, now).0.last_reset_date == self.last_reset_date,
    {
        if let Ok(request) = plan.hour_request() {
            let (overlays, fault) = started(
                self.overlays,
                request,
                now.monotonic,
                plan.owners@.len() as int,
            );
            let next = EngineModel { overlays, ..self };
            next.recomputation_keeps_the_state(plan, almanac, now, true);
        }
    }
}

} // verus!
