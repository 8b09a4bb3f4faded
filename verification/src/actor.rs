//! What the running service does next: messages heard, ticks, operations planned
//! and put off.
use crate::dispatch::{Model, Step};
use crate::double::Double;
use crate::input::RawInputEvent;
use crate::reconcile::{DispatchToken, ReconcileAction, ReconcileError};
use crate::runtime::{
    ActionSummary, EngineModel, HouseEngine, RuntimeError, RuntimeInstant, TopologyProblem,
};
use crate::state::{ControlId, MonotonicTime};
use crate::zigbee2mqtt::{
    AdapterOperation, AdapterPlan, DispatchPlanMetadata, InboundEvent,
    InboundMessage, PlanEpoch,
};
use vstd::prelude::*;
use vstd::string::*;

verus! {

// Hearing.

/// What a message amounts to.
pub enum Hearing {
    Event(InboundEvent),
    Nothing,
    /// Something from outside that cannot be read; `bridge` where it was to tell
    /// of the bridge.
    Malformed { bridge: bool },
}

/// What reading a message leads to.
pub open spec fn heard_as(
    engine: HouseEngine,
    message: InboundMessage<'_>,
    result: Result<Hearing, RuntimeError>,
) -> bool {
    match engine.adapter.heard(message.topic@, message.payload@, message.retain) {
        Ok(Some(heard)) => result matches Ok(Hearing::Event(event)) && event@ == heard,
        Ok(None) => result matches Ok(Hearing::Nothing),
        Err(fault) => if fault.permanent {
            result matches Err(RuntimeError::Adapter(error)) && error@ == fault
        } else {
            result matches Ok(Hearing::Malformed { bridge }) && bridge == (message.topic@
                == engine.mqtt.zigbee2mqtt_base_topic@ + "/bridge/state"@)
        },
    }
}

/// What the event tells the reconciler; none for input.
pub open spec fn reaction(model: Model, event: InboundEvent, now: MonotonicTime) -> Option<Step> {
    match event {
        InboundEvent::BridgeAvailability(availability) => Some(
            model.transacted(now, model.bridged(availability, now)),
        ),
        InboundEvent::DeviceAvailability { device, availability } => Some(
            model.transacted(
                now,
                model.of_device(
                    device,
                    model.made_available(model.place(device), availability, now),
                ),
            ),
        ),
        InboundEvent::DeviceState { device, state } => Some(
            model.transacted(
                now,
                model.of_device(device, model.observed(model.place(device), state, now)),
            ),
        ),
        InboundEvent::Input { .. } => None,
        InboundEvent::UnknownInputAction { .. } => Some(Ok((model, Seq::empty()))),
    }
}

/// Only the reconciler has moved.
pub open spec fn only_reconciled(was: HouseEngine, is_now: HouseEngine, reconciler: Model) -> bool {
    &&& is_now@ == (EngineModel { reconciler, ..was@ })
    &&& is_now.same_house(was)
    &&& is_now.same_clicks(was)
}

impl HouseEngine {
    /// Reads a message. What cannot be read is passed over, unless the fault is the
    /// house's own.
    pub fn hear(&self, message: &InboundMessage<'_>) -> (result: Result<Hearing, RuntimeError>)
        ensures
            heard_as(*self, *message, result),
    {
        match self.adapter.parse(message) {
            Ok(Some(event)) => Ok(Hearing::Event(event)),
            Ok(None) => Ok(Hearing::Nothing),
            Err(error) => {
                if error.is_permanent() {
                    return Err(RuntimeError::Adapter(error));
                }
                let mut topic = self.mqtt.zigbee2mqtt_base_topic.clone();
                topic.append("/bridge/state");
                Ok(
                    Hearing::Malformed {
                        bridge: crate::text::text_equals(message.topic, topic.as_str()),
                    },
                )
            },
        }
    }

    /// Passes an event that is no input on to the reconciler.
    pub fn react(&mut self, event: &InboundEvent, now: MonotonicTime) -> (result: Result<
        Option<Vec<ReconcileAction>>,
        RuntimeError,
    >)
        requires
            old(self).wf(),
        ensures
            match reaction(old(self)@.reconciler, *event, now) {
                None => result matches Ok(None) && only_reconciled(
                    *old(self),
                    *final(self),
                    old(self)@.reconciler,
                ),
                Some(Ok((reconciler, actions))) => {
                    &&& result matches Ok(Some(list)) && list@ == actions
                    &&& only_reconciled(*old(self), *final(self), reconciler)
                },
                Some(Err(error)) => {
                    &&& result matches Err(RuntimeError::Reconcile(refusal)) && refusal == error
                    &&& only_reconciled(*old(self), *final(self), old(self)@.reconciler)
                },
            },
            final(self).wf(),
    {
        let result = match event {
            InboundEvent::BridgeAvailability(availability) =>
                self.reconciler.set_bridge_availability(*availability, now),
            InboundEvent::DeviceAvailability { device, availability } =>
                self.reconciler.set_device_availability(device, *availability, now),
            InboundEvent::DeviceState { device, state } =>
                self.reconciler.observe(device, *state, now),
            InboundEvent::Input { .. } => return Ok(None),
            InboundEvent::UnknownInputAction { .. } => return Ok(Some(Vec::new())),
        };
        match result {
            Ok(actions) => Ok(Some(actions)),
            Err(error) => Err(RuntimeError::Reconcile(error)),
        }
    }
}

// Trying.

/// What to do with an engine that something was tried on.
#[derive(Debug, Clone, Copy, PartialEq, Eq, Structural)]
pub enum Adoption {
    /// Nothing happened; the engine at hand stays.
    Discard,
    /// The tried engine takes over.
    Adopt,
    /// The tried engine takes over once its state is stored.
    SaveFirst,
}

/// Some outcome has to be stored.
pub open spec fn durable(outcomes: Seq<ActionSummary>) -> bool {
    exists|i: int| 0 <= i < outcomes.len() && (#[trigger] outcomes[i]).durable_state_changed
}

pub fn is_durable(outcomes: &Vec<ActionSummary>) -> (result: bool)
    ensures
        result == durable(outcomes@),
{
    let mut i: usize = 0;
    while i < outcomes.len()
        invariant
            i <= outcomes@.len(),
            forall|j: int| 0 <= j < i ==> !(#[trigger] outcomes@[j]).durable_state_changed,
        decreases outcomes@.len() - i,
    {
        if outcomes[i].durable_state_changed {
            return true;
        }
        i = i + 1;
    }
    false
}

/// What the first part of a tick leads to.
pub open spec fn tick_begun(
    was: HouseEngine,
    flushed: HouseEngine,
    outcomes: Vec<ActionSummary>,
    is_now: HouseEngine,
    changed: bool,
    adoption: Adoption,
    now: RuntimeInstant,
) -> bool {
    &&& crate::runtime::input_flushed(
        was,
        flushed,
        now,
        Ok::<Vec<ActionSummary>, RuntimeError>(outcomes),
    )
    &&& crate::runtime::became(
        flushed@.reset(*was.plan, *was.almanac, now),
        is_now@,
        Ok::<bool, RuntimeError>(changed),
    )
    &&& is_now.same_clicks(flushed)
    &&& adoption == if durable(outcomes@) || changed {
        Adoption::SaveFirst
    } else if outcomes@.len() > 0 {
        Adoption::Adopt
    } else {
        Adoption::Discard
    }
}

/// What trying the first part of a tick leads to.
pub open spec fn begun_with(
    engine: HouseEngine,
    now: RuntimeInstant,
    result: Result<(HouseEngine, Adoption), RuntimeError>,
) -> bool {
    match result {
        Ok((next, adoption)) => {
            &&& exists|flushed: HouseEngine, outcomes: Vec<ActionSummary>, changed: bool|
                #[trigger] tick_begun(
                    engine,
                    flushed,
                    outcomes,
                    next,
                    changed,
                    adoption,
                    now,
                )
            &&& next.wf()
            &&& next.same_house(engine)
        },
        Err(error) => {
            ||| exists|flushed: HouseEngine| #[trigger]
                crate::runtime::input_flushed(
                    engine,
                    flushed,
                    now,
                    Err::<Vec<ActionSummary>, RuntimeError>(error),
                )
            ||| exists|flushed: HouseEngine, outcomes: Vec<ActionSummary>|
                #[trigger] crate::runtime::input_flushed(
                    engine,
                    flushed,
                    now,
                    Ok::<Vec<ActionSummary>, RuntimeError>(outcomes),
                ) && flushed@.reset(*engine.plan, *engine.almanac, now).1 == Err::<
                    bool,
                    RuntimeError,
                >(error)
        },
    }
}

/// What trying an input event leads to.
pub open spec fn input_tried(
    engine: HouseEngine,
    control: ControlId,
    event: RawInputEvent,
    now: RuntimeInstant,
    result: Result<(HouseEngine, Adoption), RuntimeError>,
) -> bool {
    match result {
        Ok((next, adoption)) => {
            &&& exists|outcomes: Vec<ActionSummary>|
                #[trigger] crate::runtime::input_taken(
                    engine,
                    next,
                    control,
                    event,
                    now,
                    Ok::<Vec<ActionSummary>, RuntimeError>(outcomes),
                ) && adoption == if durable(outcomes@) {
                    Adoption::SaveFirst
                } else {
                    Adoption::Adopt
                }
            &&& next.wf()
            &&& next.same_house(engine)
        },
        Err(error) => exists|next: HouseEngine| #[trigger]
            crate::runtime::input_taken(
                engine,
                next,
                control,
                event,
                now,
                Err::<Vec<ActionSummary>, RuntimeError>(error),
            ),
    }
}

impl HouseEngine {
    /// Tries an input event on a copy.
    pub fn try_input(&self, control: ControlId, event: RawInputEvent, now: RuntimeInstant) -> (result:
        Result<(HouseEngine, Adoption), RuntimeError>)
        requires
            self.wf(),
            now.wf(),
        ensures
            input_tried(*self, control, event, now, result),
    {
        let mut next = self.copied();
        match next.handle_input(control, event, now) {
            Ok(outcomes) => {
                let adoption = if is_durable(&outcomes) {
                    Adoption::SaveFirst
                } else {
                    Adoption::Adopt
                };
                assert(crate::runtime::input_taken(
                    *self,
                    next,
                    control,
                    event,
                    now,
                    Ok::<Vec<ActionSummary>, RuntimeError>(outcomes),
                ));
                Ok((next, adoption))
            },
            Err(error) => {
                assert(crate::runtime::input_taken(
                    *self,
                    next,
                    control,
                    event,
                    now,
                    Err::<Vec<ActionSummary>, RuntimeError>(error),
                ));
                Err(error)
            },
        }
    }

    /// Tries the daily reset on a copy; none where it is not due.
    pub fn try_reset(&self, now: RuntimeInstant) -> (result: Result<
        Option<HouseEngine>,
        RuntimeError,
    >)
        requires
            self.wf(),
            now.wf(),
        ensures
            match self@.reset(*self.plan, *self.almanac, now) {
                (after, Ok(true)) => result matches Ok(Some(next)) && next@ == after && next.wf()
                    && next.same_house(*self) && next.same_clicks(*self),
                (_, Ok(false)) => result matches Ok(None),
                (_, Err(error)) => result == Err::<Option<HouseEngine>, RuntimeError>(error),
            },
    {
        let mut next = self.copied();
        match next.reset_if_due(now) {
            Ok(true) => Ok(Some(next)),
            Ok(false) => Ok(None),
            Err(error) => Err(error),
        }
    }

    /// Tries the first part of a tick on a copy: clicks that are due, then the
    /// daily reset.
    pub fn begin_tick(&self, now: RuntimeInstant) -> (result: Result<
        (HouseEngine, Adoption),
        RuntimeError,
    >)
        requires
            self.wf(),
            now.wf(),
        ensures
            begun_with(*self, now, result),
    {
        let mut next = self.copied();
        let outcomes = match next.flush_input(now) {
            Ok(outcomes) => outcomes,
            Err(error) => {
                assert(crate::runtime::input_flushed(
                    *self,
                    next,
                    now,
                    Err::<Vec<ActionSummary>, RuntimeError>(error),
                ));
                return Err(error);
            },
        };
        let ghost flushed = next;
        assert(crate::runtime::input_flushed(
            *self,
            flushed,
            now,
            Ok::<Vec<ActionSummary>, RuntimeError>(outcomes),
        ));
        let changed = match next.reset_if_due(now) {
            Ok(changed) => changed,
            Err(error) => return Err(error),
        };
        let adoption = if is_durable(&outcomes) || changed {
            Adoption::SaveFirst
        } else if outcomes.len() > 0 {
            Adoption::Adopt
        } else {
            Adoption::Discard
        };
        assert(tick_begun(*self, flushed, outcomes, next, changed, adoption, now));
        Ok((next, adoption))
    }
}

// Advancing.

/// `deadline` is the next moment at which something passes on its own.
pub open spec fn next_passing(engine: HouseEngine, deadline: Option<MonotonicTime>) -> bool {
    match deadline {
        Some(time) => crate::runtime::passes_at(engine, time) && crate::runtime::quiet_until(
            engine,
            time,
        ),
        None => crate::runtime::at_rest(engine),
    }
}

/// The deadline has come.
pub open spec fn reached(deadline: Option<MonotonicTime>, now: MonotonicTime) -> bool {
    deadline matches Some(time) && time.value.at_most(now.value)
}

/// What the second part of a tick leads to: the hour strikes, or something passed,
/// or the curves move on.
pub open spec fn advanced(
    engine: HouseEngine,
    deadline: Option<MonotonicTime>,
    whole_hour: bool,
    curve_tick: bool,
    now: RuntimeInstant,
) -> (EngineModel, Result<Seq<ReconcileAction>, RuntimeError>) {
    if whole_hour {
        match engine@.struck(*engine.plan, *engine.almanac, now) {
            (after, Ok(_)) => (EngineModel { pending: Seq::empty(), ..after }, Ok(after.pending)),
            (after, Err(error)) => (after, Err(error)),
        }
    } else if reached(deadline, now.monotonic) {
        engine@.recomputed(*engine.plan, *engine.almanac, now, true)
    } else if curve_tick {
        engine@.recomputed(*engine.plan, *engine.almanac, now, false)
    } else {
        (engine@, Ok(Seq::empty()))
    }
}

/// The engine and the actions are those expected.
pub open spec fn moved_on(
    expected: (EngineModel, Result<Seq<ReconcileAction>, RuntimeError>),
    after: EngineModel,
    result: Result<Vec<ReconcileAction>, RuntimeError>,
) -> bool {
    &&& after == expected.0
    &&& match expected.1 {
        Ok(actions) => result matches Ok(list) && list@ == actions,
        Err(error) => result == Err::<Vec<ReconcileAction>, RuntimeError>(error),
    }
}

impl HouseEngine {
    /// The second part of a tick.
    pub fn advance(&mut self, whole_hour: bool, curve_tick: bool, now: RuntimeInstant) -> (result:
        Result<Vec<ReconcileAction>, RuntimeError>)
        requires
            old(self).wf(),
            now.wf(),
        ensures
            exists|deadline: Option<MonotonicTime>|
                #[trigger] next_passing(*old(self), deadline) && moved_on(
                    advanced(*old(self), deadline, whole_hour, curve_tick, now),
                    final(self)@,
                    result,
                ),
            final(self).wf(),
            final(self).same_house(*old(self)),
            final(self).same_clicks(*old(self)),
    {
        let deadline = self.next_transient_deadline();
        assert(next_passing(*old(self), deadline));
        if whole_hour {
            return match self.start_whole_hour_overlay(now) {
                Ok(_) => Ok(self.take_reconcile_actions()),
                Err(error) => Err(error),
            };
        }
        let passed = match deadline {
            Some(time) => time.as_seconds().le(now.monotonic.as_seconds()),
            None => false,
        };
        if passed {
            return match self.recompute_desired(now) {
                Ok((actions, _)) => Ok(actions),
                Err(error) => Err(error),
            };
        }
        if curve_tick {
            return match self.recompute_sparse(now) {
                Ok((actions, _)) => Ok(actions),
                Err(error) => Err(error),
            };
        }
        Ok(Vec::new())
    }
}

// Planning.

/// The reconciler once the batches of the first `n` actions are given up.
pub open spec fn given_up(
    model: Model,
    actions: Seq<ReconcileAction>,
    now: MonotonicTime,
    n: int,
) -> (Model, Option<ReconcileError>)
    decreases n,
{
    if n <= 0 {
        (model, None)
    } else {
        let (before, fault) = given_up(model, actions, now, n - 1);
        if fault is Some {
            (before, fault)
        } else {
            match actions[n - 1] {
                ReconcileAction::Command { token, .. } => match before.completed(
                    now,
                    Ok(before.dropped(token)),
                ) {
                    Ok((after, _)) => (after, None),
                    Err(error) => (before, Some(error)),
                },
                _ => (before, None),
            }
        }
    }
}

/// The reconciler once the first `n` batches have their plans.
pub open spec fn plans_registered(
    model: Model,
    plans: Seq<DispatchPlanMetadata>,
    epoch: MonotonicTime,
    n: int,
) -> (Model, Option<ReconcileError>)
    decreases n,
{
    if n <= 0 {
        (model, None)
    } else {
        let (before, fault) = plans_registered(model, plans, epoch, n - 1);
        if fault is Some {
            (before, fault)
        } else {
            let plan = plans[n - 1];
            let step = if before.has_token(plan.token) {
                before.completed(
                    epoch,
                    before.registered(plan.token, epoch, plan.operation_count, plan.max_offset_ms),
                )
            } else {
                Ok((before, crate::reconcile::DispatchRegistrationOutcome::Stale))
            };
            match step {
                Ok((after, _)) => (after, None),
                Err(error) => (before, Some(error)),
            }
        }
    }
}

proof fn lemma_given_up_fault(
    model: Model,
    actions: Seq<ReconcileAction>,
    now: MonotonicTime,
    m: int,
    n: int,
)
    requires
        0 <= m <= n,
        given_up(model, actions, now, m).1 is Some,
    ensures
        given_up(model, actions, now, n) == given_up(model, actions, now, m),
    decreases n,
{
    if m < n {
        lemma_given_up_fault(model, actions, now, m, n - 1);
    }
}

proof fn lemma_registered_fault(
    model: Model,
    plans: Seq<DispatchPlanMetadata>,
    epoch: MonotonicTime,
    m: int,
    n: int,
)
    requires
        0 <= m <= n,
        plans_registered(model, plans, epoch, m).1 is Some,
    ensures
        plans_registered(model, plans, epoch, n) == plans_registered(model, plans, epoch, m),
    decreases n,
{
    if m < n {
        lemma_registered_fault(model, plans, epoch, m, n - 1);
    }
}

proof fn lemma_dropped_stays_gone(model: Model, other: DispatchToken, token: DispatchToken)
    requires
        model.wf(),
        !model.has_token(token),
    ensures
        !model.dropped(other).0.has_token(token),
{
    Model::token_is_placed(model.staged, token);
    Model::token_is_placed(model.staged, other);
    let k = crate::dispatch::token_place(model.staged, other);
    let next = model.dropped(other).0;
    Model::token_is_placed(next.staged, token);
    let l = crate::dispatch::token_place(next.staged, token);
    if model.has_token(other) && l < next.staged.len() {
        assert(next.staged[l] == model.staged[if l < k {
            l
        } else {
            l + 1
        }]);
    }
}

/// Batches that are given up are gone: none of the commands among the first `n`
/// actions can be sent any more.
pub proof fn given_up_batches_are_gone(
    model: Model,
    actions: Seq<ReconcileAction>,
    now: MonotonicTime,
    n: int,
    i: int,
)
    requires
        model.wf(),
        given_up(model, actions, now, n).1 is None,
        0 <= i < n <= actions.len(),
        actions[i] is Command,
    ensures
        !given_up(model, actions, now, n).0.has_token(actions[i]->token),
        given_up(model, actions, now, n).0.wf(),
    decreases n,
{
    lemma_given_up_keeps(model, actions, now, n - 1);
    let before = given_up(model, actions, now, n - 1).0;
    if i < n - 1 {
        given_up_batches_are_gone(model, actions, now, n - 1, i);
    }
    if let ReconcileAction::Command { token, .. } = actions[n - 1] {
        before.dropped_keeps(token);
        before.dropped(token).0.time_keeps(Some(now));
        if i < n - 1 {
            lemma_dropped_stays_gone(before, token, actions[i]->token);
        }
    }
}

proof fn lemma_given_up_keeps(
    model: Model,
    actions: Seq<ReconcileAction>,
    now: MonotonicTime,
    n: int,
)
    requires
        model.wf(),
    ensures
        given_up(model, actions, now, n).0.wf(),
    decreases n,
{
    if n > 0 {
        lemma_given_up_keeps(model, actions, now, n - 1);
        let before = given_up(model, actions, now, n - 1).0;
        if let ReconcileAction::Command { token, .. } = actions[n - 1] {
            before.dropped_keeps(token);
            before.dropped(token).0.time_keeps(Some(now));
        }
    }
}

/// Why the adapter cannot plan the actions.
pub open spec fn planning_fault(
    engine: HouseEngine,
    actions: Seq<ReconcileAction>,
) -> Option<crate::zigbee2mqtt::Fault> {
    let n = actions.len() as int;
    match (
        crate::zigbee2mqtt::reads_of(*engine.adapter, actions, n),
        crate::zigbee2mqtt::commands_of(*engine.adapter, actions, n),
    ) {
        (Err(fault), _) => Some(fault),
        (_, Err(fault)) => Some(fault),
        _ => None,
    }
}

/// `plan` is a plan of the actions.
pub open spec fn plan_fits(
    engine: HouseEngine,
    actions: Seq<ReconcileAction>,
    now: MonotonicTime,
    plan: AdapterPlan,
) -> bool {
    crate::zigbee2mqtt::planned(*engine.adapter, PlanEpoch { time: now }, actions, plan)
}

impl HouseEngine {
    fn give_up(&mut self, actions: &Vec<ReconcileAction>, now: MonotonicTime) -> (fault: Option<
        ReconcileError,
    >)
        requires
            old(self).wf(),
        ensures
            ({
                let (reconciler, expected) = given_up(
                    old(self)@.reconciler,
                    actions@,
                    now,
                    actions@.len() as int,
                );
                &&& fault == expected
                &&& only_reconciled(*old(self), *final(self), reconciler)
            }),
            final(self).wf(),
    {
        let ghost start = self@.reconciler;
        let mut i: usize = 0;
        while i < actions.len()
            invariant
                i <= actions@.len(),
                self.wf(),
                start == old(self)@.reconciler,
                given_up(start, actions@, now, i as int) == (
                    self@.reconciler,
                    None::<ReconcileError>,
                ),
                only_reconciled(*old(self), *self, self@.reconciler),
            decreases actions@.len() - i,
        {
            if let ReconcileAction::Command { token, .. } = &actions[i] {
                match self.reconciler.cancel_dispatch(*token, now) {
                    Ok(_) => {},
                    Err(error) => {
                        proof {
                            lemma_given_up_fault(
                                start,
                                actions@,
                                now,
                                i + 1,
                                actions@.len() as int,
                            );
                        }
                        return Some(error);
                    },
                }
            }
            i = i + 1;
        }
        None
    }

    fn register_plans(&mut self, plans: &Vec<DispatchPlanMetadata>, epoch: MonotonicTime) -> (fault:
        Option<ReconcileError>)
        requires
            old(self).wf(),
        ensures
            ({
                let (reconciler, expected) = plans_registered(
                    old(self)@.reconciler,
                    plans@,
                    epoch,
                    plans@.len() as int,
                );
                &&& fault == expected
                &&& only_reconciled(*old(self), *final(self), reconciler)
            }),
            final(self).wf(),
    {
        let ghost start = self@.reconciler;
        let mut i: usize = 0;
        while i < plans.len()
            invariant
                i <= plans@.len(),
                self.wf(),
                start == old(self)@.reconciler,
                plans_registered(start, plans@, epoch, i as int) == (
                    self@.reconciler,
                    None::<ReconcileError>,
                ),
                only_reconciled(*old(self), *self, self@.reconciler),
            decreases plans@.len() - i,
        {
            match self.reconciler.register_dispatch_plan(
                plans[i].token(),
                epoch,
                plans[i].operation_count(),
                plans[i].max_offset_ms(),
            ) {
                Ok(_) => {},
                Err(error) => {
                    proof {
                        lemma_registered_fault(start, plans@, epoch, i + 1, plans@.len() as int);
                    }
                    return Some(error);
                },
            }
            i = i + 1;
        }
        None
    }

    /// Plans the operations of actions and registers their batches. Where the
    /// adapter will never be able to carry the actions out, their batches are given
    /// up at `failed_at`.
    pub fn plan_operations(
        &mut self,
        actions: &Vec<ReconcileAction>,
        now: MonotonicTime,
        failed_at: MonotonicTime,
    ) -> (result: Result<AdapterPlan, RuntimeError>)
        requires
            old(self).wf(),
        ensures
            match planning_fault(*old(self), actions@) {
                Some(fault) => if fault.permanent {
                    let (reconciler, refusal) = given_up(
                        old(self)@.reconciler,
                        actions@,
                        failed_at,
                        actions@.len() as int,
                    );
                    &&& only_reconciled(*old(self), *final(self), reconciler)
                    &&& match refusal {
                        Some(error) => result == Err::<AdapterPlan, RuntimeError>(
                            RuntimeError::Reconcile(error),
                        ),
                        None => result matches Err(RuntimeError::Adapter(error)) && error@
                            == fault,
                    }
                } else {
                    &&& only_reconciled(*old(self), *final(self), old(self)@.reconciler)
                    &&& result matches Err(RuntimeError::Adapter(error)) && error@ == fault
                },
                None => exists|plan: AdapterPlan|
                    #[trigger] plan_fits(*old(self), actions@, now, plan) && ({
                        let (reconciler, refusal) = plans_registered(
                            old(self)@.reconciler,
                            plan.dispatch_plans@,
                            now,
                            plan.dispatch_plans@.len() as int,
                        );
                        &&& only_reconciled(*old(self), *final(self), reconciler)
                        &&& match refusal {
                            Some(error) => result == Err::<AdapterPlan, RuntimeError>(
                                RuntimeError::Reconcile(error),
                            ),
                            None => result == Ok::<AdapterPlan, RuntimeError>(plan),
                        }
                    }),
            },
            final(self).wf(),
    {
        let plan = match self.adapter.apply_actions(PlanEpoch::new(now), actions) {
            Ok(plan) => plan,
            Err(error) => {
                if error.is_permanent() {
                    if let Some(refusal) = self.give_up(actions, failed_at) {
                        return Err(RuntimeError::Reconcile(refusal));
                    }
                }
                return Err(RuntimeError::Adapter(error));
            },
        };
        assert(plan_fits(*old(self), actions@, now, plan));
        if let Some(refusal) = self.register_plans(&plan.dispatch_plans, now) {
            return Err(RuntimeError::Reconcile(refusal));
        }
        Ok(plan)
    }
}

// Putting off.

/// An operation that waits for its time.
pub struct DelayedOperation {
    pub due_seconds: Double,
    pub sequence: u64,
    pub operation: AdapterOperation,
}

/// Operations that wait, in the order in which they fall due; of those that fall
/// due together the first put off comes first.
pub struct Agenda {
    pub delayed: Vec<DelayedOperation>,
    pub next_sequence: u64,
}

/// How long an operation waits after its plan was made, in milliseconds.
pub open spec fn offset_of(operation: AdapterOperation) -> u64 {
    match operation {
        AdapterOperation::Publish(publication) => publication.not_before_ms,
        AdapterOperation::Subscribe(_) => 0,
    }
}

/// When an operation of a plan made at `now` falls due.
pub open spec fn due_time(operation: AdapterOperation, now: MonotonicTime) -> Double {
    now.value.sum(
        Double::of_nat(offset_of(operation) as nat).quotient(
            Double { bits: crate::config::MILLISECONDS },
        ),
    )
}

impl Agenda {
    pub open spec fn wf(self) -> bool {
        forall|i: int, j: int|
            0 <= i < j < self.delayed@.len() ==> !(
            #[trigger] self.delayed@[j]).due_seconds.less(
                (#[trigger] self.delayed@[i]).due_seconds,
            )
    }

    /// Number of operations, from `i` on, that are before a new one due at `due`.
    pub open spec fn place_for(self, due: Double, i: int) -> int
        decreases self.delayed@.len() - i,
    {
        if i >= self.delayed@.len() || due.less(self.delayed@[i].due_seconds) {
            i
        } else {
            self.place_for(due, i + 1)
        }
    }

    /// Number of operations, from `i` on, before the first that is not due.
    pub open spec fn due_count(self, now: MonotonicTime, i: int) -> int
        decreases self.delayed@.len() - i,
    {
        if i >= self.delayed@.len() || !self.delayed@[i].due_seconds.at_most(now.value) {
            i
        } else {
            self.due_count(now, i + 1)
        }
    }

    pub fn new() -> (agenda: Self)
        ensures
            agenda.delayed@.len() == 0,
            agenda.next_sequence == 0,
            agenda.wf(),
    {
        Agenda { delayed: Vec::new(), next_sequence: 0 }
    }

    /// Hands an operation back that can be carried out at once, and puts any other
    /// off until its time.
    pub fn schedule(&mut self, operation: AdapterOperation, now: MonotonicTime) -> (result: Result<
        Option<AdapterOperation>,
        RuntimeError,
    >)
        requires
            old(self).wf(),
        ensures
            ({
                let due = due_time(operation, now);
                let place = old(self).place_for(due, 0);
                if offset_of(operation) == 0 {
                    &&& result == Ok::<Option<AdapterOperation>, RuntimeError>(Some(operation))
                    &&& *final(self) == *old(self)
                } else if !due.finite() {
                    &&& result == Err::<Option<AdapterOperation>, RuntimeError>(
                        RuntimeError::InvalidTopology(TopologyProblem::DeadlineOverflow),
                    )
                    &&& *final(self) == *old(self)
                } else {
                    &&& final(self).delayed@ == old(self).delayed@.insert(
                        place,
                        DelayedOperation {
                            due_seconds: due,
                            sequence: old(self).next_sequence,
                            operation,
                        },
                    )
                    &&& if old(self).next_sequence == u64::MAX {
                        &&& result == Err::<Option<AdapterOperation>, RuntimeError>(
                            RuntimeError::InvalidTopology(TopologyProblem::SequenceExhausted),
                        )
                        &&& final(self).next_sequence == u64::MAX
                    } else {
                        &&& result == Ok::<Option<AdapterOperation>, RuntimeError>(None)
                        &&& final(self).next_sequence == old(self).next_sequence + 1
                    }
                }
            }),
            final(self).wf(),
    {
        let offset: u64 = match operation.publication() {
            Some(publication) => publication.not_before_ms(),
            None => 0,
        };
        if offset == 0 {
            return Ok(Some(operation));
        }
        let due = now.as_seconds().plus(
            Double::from_u64(offset).over(Double::from_bits(crate::config::MILLISECONDS)),
        );
        if !due.is_finite() {
            return Err(RuntimeError::InvalidTopology(TopologyProblem::DeadlineOverflow));
        }
        let mut place: usize = 0;
        while place < self.delayed.len() && !due.lt(self.delayed[place].due_seconds)
            invariant
                place <= self.delayed@.len(),
                old(self).wf(),
                self.delayed@ == old(self).delayed@,
                self.next_sequence == old(self).next_sequence,
                old(self).place_for(due, 0) == old(self).place_for(due, place as int),
                forall|i: int|
                    0 <= i < place ==> !due.less((#[trigger] self.delayed@[i]).due_seconds),
            decreases self.delayed@.len() - place,
        {
            place = place + 1;
        }
        let ghost before = self.delayed@;
        let sequence: u64 = self.next_sequence;
        let entry = DelayedOperation { due_seconds: due, sequence, operation };
        self.delayed.insert(place, entry);
        proof {
            let after = self.delayed@;
            assert forall|i: int, j: int| 0 <= i < j < after.len() implies !(
            #[trigger] after[j]).due_seconds.less((#[trigger] after[i]).due_seconds) by {
                let a = if i < place {
                    i
                } else {
                    i - 1
                };
                let b = if j < place {
                    j
                } else {
                    j - 1
                };
                if i != place {
                    assert(after[i] == before[a]);
                }
                if j != place {
                    assert(after[j] == before[b]);
                }
                if i != place && j != place {
                    assert(!before[b].due_seconds.less(before[a].due_seconds));
                } else if i == place {
                    if b != place {
                        assert(!before[b].due_seconds.less(before[place as int].due_seconds));
                    }
                }
            }
        }
        self.next_sequence = match sequence.checked_add(1) {
            Some(next) => next,
            None => return Err(RuntimeError::InvalidTopology(TopologyProblem::SequenceExhausted)),
        };
        Ok(None)
    }

    /// Takes the operations whose time has come, in order.
    pub fn take_due(&mut self, now: MonotonicTime) -> (due: Vec<AdapterOperation>)
        requires
            old(self).wf(),
        ensures
            ({
                let count = old(self).due_count(now, 0);
                &&& 0 <= count <= old(self).delayed@.len()
                &&& due@ == Seq::new(count as nat, |i: int| old(self).delayed@[i].operation)
                &&& final(self).delayed@ == old(self).delayed@.skip(count)
            }),
            final(self).next_sequence == old(self).next_sequence,
            final(self).wf(),
    {
        let ghost all = self.delayed@;
        let mut due: Vec<AdapterOperation> = Vec::new();
        let ghost mut count: int = 0;
        assert(all.skip(0) =~= all);
        while self.delayed.len() > 0 && self.delayed[0].due_seconds.le(now.value)
            invariant
                0 <= count <= all.len(),
                all == old(self).delayed@,
                self.delayed@ == all.skip(count),
                self.next_sequence == old(self).next_sequence,
                old(self).wf(),
                old(self).due_count(now, 0) == old(self).due_count(now, count),
                due@ == Seq::new(count as nat, |i: int| all[i].operation),
            decreases self.delayed@.len(),
        {
            let entry = self.delayed.remove(0);
            assert(entry == all[count]);
            due.push(entry.operation);
            proof {
                count = count + 1;
            }
            assert(self.delayed@ =~= all.skip(count));
            assert(due@ =~= Seq::new(count as nat, |i: int| all[i].operation));
        }
        proof {
            if count < all.len() {
                assert(self.delayed@[0] == all[count]);
            }
            assert forall|i: int, j: int| 0 <= i < j < self.delayed@.len() implies !(
            #[trigger] self.delayed@[j]).due_seconds.less(
                (#[trigger] self.delayed@[i]).due_seconds,
            ) by {
                assert(self.delayed@[i] == all[i + count] && self.delayed@[j] == all[j + count]);
            }
        }
        due
    }

    /// Forgets everything.
    pub fn clear(&mut self)
        ensures
            final(self).delayed@.len() == 0,
            final(self).next_sequence == old(self).next_sequence,
            final(self).wf(),
    {
        self.delayed.clear();
    }

    /// When the first operation falls due.
    pub fn next_due(&self) -> (due: Option<Double>)
        ensures
            due == if self.delayed@.len() > 0 {
                Some(self.delayed@[0].due_seconds)
            } else {
                None
            },
    {
        if self.delayed.len() > 0 {
            Some(self.delayed[0].due_seconds)
        } else {
            None
        }
    }

    /// Nothing waits whose time has come before something that was taken, and
    /// nothing that is left was due.
    pub proof fn all_that_is_due_is_taken(self, now: MonotonicTime, i: int)
        requires
            self.wf(),
            now.value.finite(),
            forall|k: int|
                0 <= k < self.delayed@.len() ==> (#[trigger] self.delayed@[k]).due_seconds.finite(),
            self.due_count(now, 0) <= i < self.delayed@.len(),
        ensures
            !self.delayed@[i].due_seconds.at_most(now.value),
    {
        let count = self.due_count(now, 0);
        self.lemma_due_count(now, 0);
        assert(!self.delayed@[count].due_seconds.at_most(now.value));
        if count < i {
            assert(!self.delayed@[i].due_seconds.less(self.delayed@[count].due_seconds));
        }
    }

    proof fn lemma_due_count(self, now: MonotonicTime, i: int)
        requires
            0 <= i,
        ensures
            i <= self.due_count(now, i),
            self.due_count(now, i) <= self.delayed@.len() || self.due_count(now, i) == i,
            self.due_count(now, i) < self.delayed@.len() ==> !self.delayed@[self.due_count(
                now,
                i,
            )].due_seconds.at_most(now.value),
        decreases self.delayed@.len() - i,
    {
        if i < self.delayed@.len() && self.delayed@[i].due_seconds.at_most(now.value) {
            self.lemma_due_count(now, i + 1);
        }
    }
}

// Waiting.

/// The smaller of two numbers.
pub open spec fn shorter(a: Double, b: Double) -> Double {
    if b.less(a) {
        b
    } else {
        a
    }
}

/// How long to wait for the earliest of what can happen, in seconds.
pub open spec fn pause(
    transient: Option<MonotonicTime>,
    delayed: Option<Double>,
    tick: Double,
    wall: Double,
    now: MonotonicTime,
) -> Double {
    let fixed = shorter(tick, wall);
    let later = match delayed {
        Some(due) => shorter(
            crate::scheduler::at_least_a_moment(due.difference(now.value)),
            fixed,
        ),
        None => fixed,
    };
    match transient {
        Some(deadline) => shorter(
            crate::scheduler::at_least_a_moment(
                deadline.value.difference(now.value).sum(
                    Double { bits: crate::scheduler::SHORTEST_PAUSE },
                ),
            ),
            later,
        ),
        None => later,
    }
}

/// A pause is no longer than the time to the next event of the wall clock.
pub proof fn pauses_are_short(
    transient: Option<MonotonicTime>,
    delayed: Option<Double>,
    tick: Double,
    wall: Double,
    now: MonotonicTime,
)
    requires
        (Double { bits: 0 }).at_most(tick),
        (Double { bits: 0 }).at_most(wall),
    ensures
        (Double { bits: 0 }).at_most(pause(transient, delayed, tick, wall, now)),
        pause(transient, delayed, tick, wall, now).at_most(wall),
{
}

fn shorter_of(a: Double, b: Double) -> (result: Double)
    ensures
        result == shorter(a, b),
{
    if b.lt(a) {
        b
    } else {
        a
    }
}

/// How long the service can sleep, in seconds.
pub fn next_delay(
    transient: Option<MonotonicTime>,
    delayed: Option<Double>,
    tick: Double,
    wall: Double,
    now: MonotonicTime,
) -> (delay: Double)
    ensures
        delay == pause(transient, delayed, tick, wall, now),
{
    let mut delay = shorter_of(tick, wall);
    if let Some(due) = delayed {
        delay = shorter_of(crate::scheduler::lengthen(due.minus(now.as_seconds())), delay);
    }
    if let Some(deadline) = transient {
        let left = deadline.as_seconds().minus(now.as_seconds()).plus(
            Double::from_bits(crate::scheduler::SHORTEST_PAUSE),
        );
        delay = shorter_of(crate::scheduler::lengthen(left), delay);
    }
    delay
}

} // verus!
