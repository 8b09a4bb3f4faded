//! The running service: the house with its clock, its agenda and its health.
use crate::actor::{next_delay, Adoption, Agenda, Hearing};
use crate::double::Double;
use crate::health::HealthState;
use crate::mqtt::{OwnedInboundMessage, TransportEvent};
use crate::pause::Pause;
use crate::reconcile::{Availability, DispatchAcceptance, DispatchToken, ReconcileAction};
use crate::runtime::{
    EngineModel, HouseEngine, RuntimeError, RuntimeInstant, TopologyProblem,
};
use crate::scheduler::{ClockSample, Scheduler, SchedulerDue};
use crate::state::MonotonicTime;
use crate::zigbee2mqtt::InboundEvent;
use vstd::prelude::*;
use vstd::string::*;

verus! {

/// The running service, but for what it waits for and what it sends.
pub struct RuntimeActor {
    pub engine: HouseEngine,
    pub scheduler: Scheduler,
    pub agenda: Agenda,
    pub health: HealthState,
    pub stopping: bool,
}

/// What is to be done about an event from the broker's side.
pub enum Reply {
    Nothing,
    /// The actions are to be sent.
    Send(Vec<ReconcileAction>),
    /// The actions are to be sent, then the broker is to learn that the service is
    /// there.
    Greet(Vec<ReconcileAction>),
    /// The engine is to be taken over.
    TakeOver(HouseEngine, Adoption),
}

/// The actor with another engine and another health.
pub open spec fn turned(
    was: RuntimeActor,
    is_now: RuntimeActor,
    reconciler: crate::dispatch::Model,
    health: HealthState,
) -> bool {
    &&& crate::actor::only_reconciled(was.engine, is_now.engine, reconciler)
    &&& is_now.health == health
    &&& is_now.scheduler == was.scheduler
    &&& is_now.stopping == was.stopping
}

/// What a connection to the broker leads to.
pub open spec fn connected(
    was: RuntimeActor,
    is_now: RuntimeActor,
    now: MonotonicTime,
    result: Result<Reply, RuntimeError>,
) -> bool {
    let model = was.engine@.reconciler;
    let health = HealthState { mqtt_connected: false, ..was.health };
    &&& is_now.agenda == was.agenda
    &&& match model.transacted(now, model.connected(now)) {
        Ok((reconciler, actions)) => {
            &&& result matches Ok(Reply::Greet(list)) && list@ == actions
            &&& turned(was, is_now, reconciler, health)
        },
        Err(error) => {
            &&& result matches Err(RuntimeError::Reconcile(refusal)) && refusal == error
            &&& turned(was, is_now, model, health)
        },
    }
}

/// What the loss of the broker leads to: nothing waits any more.
pub open spec fn disconnected(
    was: RuntimeActor,
    is_now: RuntimeActor,
    now: MonotonicTime,
    result: Result<Reply, RuntimeError>,
) -> bool {
    let model = was.engine@.reconciler;
    let health = HealthState { mqtt_connected: false, bridge_online: false, ..was.health };
    &&& is_now.agenda.delayed@.len() == 0
    &&& is_now.agenda.next_sequence == was.agenda.next_sequence
    &&& match model.completed(now, Ok((model.disconnected(), ()))) {
        Ok((reconciler, _)) => {
            &&& result matches Ok(Reply::Nothing)
            &&& turned(was, is_now, reconciler, health)
        },
        Err(error) => {
            &&& result matches Err(RuntimeError::Reconcile(refusal)) && refusal == error
            &&& turned(was, is_now, model, health)
        },
    }
}

/// The health once an event has come in.
pub open spec fn health_after(health: HealthState, event: InboundEvent) -> HealthState {
    match event {
        InboundEvent::BridgeAvailability(availability) => HealthState {
            bridge_online: availability == Availability::Online,
            ..health
        },
        _ => health,
    }
}

/// What an event from the house leads to.
pub open spec fn responded(
    was: RuntimeActor,
    is_now: RuntimeActor,
    event: InboundEvent,
    now: RuntimeInstant,
    result: Result<Reply, RuntimeError>,
) -> bool {
    let model = was.engine@.reconciler;
    let health = health_after(was.health, event);
    &&& is_now.agenda == was.agenda
    &&& match crate::actor::reaction(model, event, now.monotonic) {
        Some(Ok((reconciler, actions))) => {
            &&& result matches Ok(Reply::Send(list)) && list@ == actions
            &&& turned(was, is_now, reconciler, health)
        },
        Some(Err(error)) => {
            &&& result matches Err(RuntimeError::Reconcile(refusal)) && refusal == error
            &&& turned(was, is_now, model, health)
        },
        None => {
            &&& turned(was, is_now, model, health)
            &&& event matches InboundEvent::Input { control, event: raw } && match result {
                Ok(Reply::TakeOver(next, adoption)) => crate::actor::input_tried(
                    was.engine,
                    control,
                    raw,
                    now,
                    Ok::<(HouseEngine, Adoption), RuntimeError>((next, adoption)),
                ),
                Ok(_) => false,
                Err(error) => crate::actor::input_tried(
                    was.engine,
                    control,
                    raw,
                    now,
                    Err::<(HouseEngine, Adoption), RuntimeError>(error),
                ),
            }
        },
    }
}

/// What a message leads to. One that cannot be read tells at most that nothing is
/// known of the bridge.
pub open spec fn answered(
    was: RuntimeActor,
    is_now: RuntimeActor,
    message: OwnedInboundMessage,
    now: RuntimeInstant,
    result: Result<Reply, RuntimeError>,
) -> bool {
    let model = was.engine@.reconciler;
    match was.engine.adapter.heard(message.topic@, message.payload@, message.retain) {
        Ok(Some(heard)) => exists|event: InboundEvent|
            event@ == heard && #[trigger] responded(was, is_now, event, now, result),
        Ok(None) => {
            &&& result matches Ok(Reply::Nothing)
            &&& is_now.agenda == was.agenda
            &&& turned(was, is_now, model, was.health)
        },
        Err(fault) => {
            &&& is_now.agenda == was.agenda
            &&& if fault.permanent {
                &&& result matches Err(RuntimeError::Adapter(error)) && error@ == fault
                &&& turned(was, is_now, model, was.health)
            } else {
                &&& result matches Ok(Reply::Nothing)
                &&& turned(
                    was,
                    is_now,
                    model,
                    if message.topic@ == was.engine.mqtt.zigbee2mqtt_base_topic@
                        + "/bridge/state"@ {
                        HealthState { bridge_online: false, ..was.health }
                    } else {
                        was.health
                    },
                )
            }
        },
    }
}

impl RuntimeActor {
    pub open spec fn wf(self) -> bool {
        self.engine.wf() && self.agenda.wf()
    }

    /// Starts the service. Every light gets its target; nothing is sent before the
    /// broker is there.
    pub fn new(engine: HouseEngine, sample: &ClockSample, health: HealthState) -> (result: Result<
        Self,
        RuntimeError,
    >)
        requires
            engine.wf(),
            sample.runtime.wf(),
        ensures
            match engine@.recomputed(*engine.plan, *engine.almanac, sample.runtime, true) {
                (_, Err(error)) => result == Err::<RuntimeActor, RuntimeError>(error),
                (after, Ok(_)) => {
                    let tick = engine.plan.circadian.tick_seconds;
                    if tick.finite() && (Double { bits: 0 }).less(tick) {
                        &&& result matches Ok(actor)
                        &&& actor.engine@ == (EngineModel { pending: Seq::empty(), ..after })
                        &&& actor.engine.same_house(engine)
                        &&& actor.engine.same_clicks(engine)
                        &&& actor.scheduler == (Scheduler {
                            tick_seconds: tick,
                            next_tick: None,
                            previous_wall_unix_seconds: None,
                            last_whole_hour_occurrence: None,
                        })
                        &&& actor.agenda.delayed@.len() == 0
                        &&& actor.agenda.next_sequence == 0
                        &&& actor.health == health
                        &&& !actor.stopping
                        &&& actor.wf()
                    } else {
                        result == Err::<RuntimeActor, RuntimeError>(
                            RuntimeError::InvalidTopology(TopologyProblem::SchedulerInterval),
                        )
                    }
                },
            },
    {
        let mut engine = engine;
        match engine.recompute_desired(sample.runtime) {
            Ok(_) => {},
            Err(error) => return Err(error),
        }
        let _ = engine.take_reconcile_actions();
        match Scheduler::new(engine.circadian().tick_seconds) {
            Ok(scheduler) => Ok(
                RuntimeActor { engine, scheduler, agenda: Agenda::new(), health, stopping: false },
            ),
            Err(_) => Err(RuntimeError::InvalidTopology(TopologyProblem::SchedulerInterval)),
        }
    }

    pub fn engine(&self) -> (engine: &HouseEngine)
        ensures
            *engine == self.engine,
    {
        &self.engine
    }

    /// Takes an event in from the broker's side; a service that stops takes none.
    pub fn handle_transport_event(&mut self, event: &TransportEvent, now: RuntimeInstant) -> (result:
        Result<Reply, RuntimeError>)
        requires
            old(self).wf(),
            now.wf(),
        ensures
            if old(self).stopping {
                &&& result matches Ok(Reply::Nothing)
                &&& *final(self) == *old(self)
            } else {
                match *event {
                    TransportEvent::Connected => connected(
                        *old(self),
                        *final(self),
                        now.monotonic,
                        result,
                    ),
                    TransportEvent::Disconnected => disconnected(
                        *old(self),
                        *final(self),
                        now.monotonic,
                        result,
                    ),
                    TransportEvent::Publish(message) => answered(
                        *old(self),
                        *final(self),
                        message,
                        now,
                        result,
                    ),
                }
            },
            final(self).wf(),
    {
        if self.stopping {
            return Ok(Reply::Nothing);
        }
        match event {
            TransportEvent::Connected => {
                self.health.set_mqtt_connected(false);
                match self.engine.reconciler.broker_connected(now.monotonic) {
                    Ok(actions) => Ok(Reply::Greet(actions)),
                    Err(error) => Err(RuntimeError::Reconcile(error)),
                }
            },
            TransportEvent::Disconnected => {
                self.health.set_mqtt_connected(false);
                self.health.set_bridge_online(false);
                self.agenda.clear();
                match self.engine.reconciler.broker_disconnected(now.monotonic) {
                    Ok(()) => Ok(Reply::Nothing),
                    Err(error) => Err(RuntimeError::Reconcile(error)),
                }
            },
            TransportEvent::Publish(message) => match self.engine.hear(&message.as_inbound()) {
                Ok(Hearing::Event(inbound)) => self.handle_inbound(&inbound, now),
                Ok(Hearing::Nothing) => Ok(Reply::Nothing),
                Ok(Hearing::Malformed { bridge }) => {
                    if bridge {
                        self.health.set_bridge_online(false);
                    }
                    Ok(Reply::Nothing)
                },
                Err(error) => Err(error),
            },
        }
    }

    fn handle_inbound(&mut self, event: &InboundEvent, now: RuntimeInstant) -> (result: Result<
        Reply,
        RuntimeError,
    >)
        requires
            old(self).wf(),
            now.wf(),
        ensures
            responded(*old(self), *final(self), *event, now, result),
            final(self).wf(),
    {
        if let InboundEvent::BridgeAvailability(availability) = event {
            self.health.set_bridge_online(*availability == Availability::Online);
        }
        if let InboundEvent::Input { control, event: raw } = event {
            return match self.engine.try_input(control.clone(), *raw, now) {
                Ok((next, adoption)) => Ok(Reply::TakeOver(next, adoption)),
                Err(error) => Err(error),
            };
        }
        match self.engine.react(event, now.monotonic) {
            Ok(Some(actions)) => Ok(Reply::Send(actions)),
            Ok(None) => Ok(Reply::Nothing),
            Err(error) => Err(error),
        }
    }

    /// The broker has learnt that the service is there.
    pub fn greeted(&mut self)
        ensures
            *final(self) == (RuntimeActor {
                health: HealthState { mqtt_connected: true, ..old(self).health },
                ..*old(self)
            }),
    {
        self.health.set_mqtt_connected(true);
    }

    /// Takes an engine over.
    pub fn take_over(&mut self, next: HouseEngine)
        ensures
            *final(self) == (RuntimeActor { engine: next, ..*old(self) }),
    {
        self.engine = next;
    }

    /// Looks at the clocks and tries the first part of a tick; a service that stops
    /// ticks no more.
    pub fn tick(&mut self, sample: &ClockSample) -> (result: Result<
        Option<(SchedulerDue, HouseEngine, Adoption)>,
        RuntimeError,
    >)
        requires
            old(self).wf(),
            sample.runtime.wf(),
            sample.wall.wf(),
        ensures
            if old(self).stopping {
                &&& result matches Ok(None)
                &&& *final(self) == *old(self)
            } else {
                &&& exists|due: SchedulerDue, begun: Result<(HouseEngine, Adoption), RuntimeError>|
                    {
                        &&& #[trigger] old(self).scheduler.observed(
                            *sample,
                            final(self).scheduler,
                            due,
                        )
                        &&& #[trigger] crate::actor::begun_with(
                            old(self).engine,
                            sample.runtime,
                            begun,
                        )
                        &&& match begun {
                            Ok((next, adoption)) => result == Ok::<
                                Option<(SchedulerDue, HouseEngine, Adoption)>,
                                RuntimeError,
                            >(Some((due, next, adoption))),
                            Err(error) => result == Err::<
                                Option<(SchedulerDue, HouseEngine, Adoption)>,
                                RuntimeError,
                            >(error),
                        }
                    }
                &&& *final(self) == (RuntimeActor {
                    scheduler: final(self).scheduler,
                    ..*old(self)
                })
            },
            final(self).wf(),
    {
        if self.stopping {
            return Ok(None);
        }
        let due = self.scheduler.observe(sample);
        let begun = self.engine.begin_tick(sample.runtime);
        assert(old(self).scheduler.observed(*sample, self.scheduler, due));
        assert(crate::actor::begun_with(old(self).engine, sample.runtime, begun));
        match begun {
            Ok((next, adoption)) => Ok(Some((due, next, adoption))),
            Err(error) => Err(error),
        }
    }

    /// How long the service can sleep, in whole nanoseconds.
    pub fn next_delay(&self, sample: &ClockSample) -> (delay: Pause)
        requires
            self.wf(),
            sample.runtime.wf(),
            Pause::holds(self.scheduler.until_tick(sample.runtime.monotonic)),
        ensures
            exists|transient: Option<MonotonicTime>|
                #[trigger] crate::actor::next_passing(self.engine, transient) && delay == Pause::of(
                    crate::actor::pause(
                        transient,
                        if self.agenda.delayed@.len() > 0 {
                            Some(self.agenda.delayed@[0].due_seconds)
                        } else {
                            None
                        },
                        Pause::of(
                            self.scheduler.until_tick(sample.runtime.monotonic),
                        ).in_seconds(),
                        (Pause {
                            seconds: Scheduler::until_wall_event(
                                sample.runtime.local_time,
                                self.engine.plan.circadian.daily_reset_time,
                            ) as u64,
                            nanos: 0,
                        }).in_seconds(),
                        sample.runtime.monotonic,
                    ),
                ),
            delay.wf(),
    {
        let transient = self.engine.next_transient_deadline();
        assert(crate::actor::next_passing(self.engine, transient));
        let wall = self.scheduler.next_wall_event_delay(
            sample,
            self.engine.circadian().daily_reset_time,
        );
        let tick = self.scheduler.next_tick_delay(sample.runtime.monotonic);
        let seconds = next_delay(
            transient,
            self.agenda.next_due(),
            tick.as_seconds(),
            wall.as_seconds(),
            sample.runtime.monotonic,
        );
        proof {
            tick.lengths_are_numbers();
            wall.lengths_are_numbers();
            crate::actor::pauses_are_short(
                transient,
                if self.agenda.delayed@.len() > 0 {
                    Some(self.agenda.delayed@[0].due_seconds)
                } else {
                    None
                },
                tick.in_seconds(),
                wall.in_seconds(),
                sample.runtime.monotonic,
            );
            Pause::short_lengths_are_held(wall.seconds, seconds);
        }
        Pause::from_seconds(seconds)
    }

    /// A batch of commands is complete at `unix_seconds`, or is not yet.
    pub fn accepted(&mut self, acceptance: DispatchAcceptance, unix_seconds: i64)
        ensures
            *final(self) == match acceptance {
                DispatchAcceptance::BatchAccepted => RuntimeActor {
                    health: HealthState {
                        last_successful_reconciliation_unix_seconds: Some(unix_seconds),
                        ..old(self).health
                    },
                    ..*old(self)
                },
                DispatchAcceptance::OperationAccepted { .. } => *old(self),
            },
    {
        if let DispatchAcceptance::BatchAccepted = acceptance {
            self.health.record_reconciliation(unix_seconds);
        }
    }

    /// Nothing can be stored any more.
    pub fn writer_stopped(&mut self)
        ensures
            *final(self) == (RuntimeActor {
                health: HealthState { database_migrated: false, ..old(self).health },
                ..*old(self)
            }),
    {
        self.health.set_database_migrated(false);
    }

    /// Begins to stop; tells whether the service was not stopping before.
    pub fn shutdown(&mut self) -> (begins: bool)
        ensures
            begins == !old(self).stopping,
            *final(self) == if old(self).stopping {
                *old(self)
            } else {
                RuntimeActor {
                    stopping: true,
                    health: HealthState {
                        mqtt_connected: false,
                        bridge_online: false,
                        ..old(self).health
                    },
                    ..*old(self)
                }
            },
    {
        if self.stopping {
            return false;
        }
        self.stopping = true;
        self.health.set_mqtt_connected(false);
        self.health.set_bridge_online(false);
        true
    }

    /// Once the broker is lost, nothing that was planned before can still be sent,
    /// and the service is not ready.
    pub proof fn interruption_withdraws_everything(
        was: RuntimeActor,
        is_now: RuntimeActor,
        now: MonotonicTime,
        token: DispatchToken,
    )
        requires
            disconnected(was, is_now, now, Ok(Reply::Nothing)),
        ensures
            is_now.agenda.delayed@.len() == 0,
            !is_now.engine@.reconciler.has_token(token),
            !is_now.health.fit(),
    {
        crate::dispatch::Model::token_is_placed(is_now.engine@.reconciler.staged, token);
    }

    /// A connection where there was none asks for subscriptions first, then for the
    /// state of every device.
    pub proof fn connections_start_afresh(
        was: RuntimeActor,
        is_now: RuntimeActor,
        now: MonotonicTime,
        actions: Vec<ReconcileAction>,
    )
        requires
            was.engine@.reconciler.transport is Disconnected,
            connected(was, is_now, now, Ok(Reply::Greet(actions))),
        ensures
            was.engine@.reconciler.greetings().is_prefix_of(actions@),
            !is_now.health.fit(),
    {
        let model = was.engine@.reconciler;
        let asked = model.greetings();
        assert(asked =~= actions@.take(asked.len() as int));
    }
}

} // verus!
