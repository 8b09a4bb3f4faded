//! Which publications have reached the broker, and when to connect again.
use crate::mqtt::MqttError;
use std::collections::BTreeMap;
use vstd::prelude::*;

verus! {

/// Stands for one publication.
#[derive(Debug, Clone, Copy, PartialEq, Eq, PartialOrd, Ord, Structural)]
pub struct DeliveryTicket {
    pub value: u64,
}

/// What became of a publication.
#[derive(Debug, Clone, Copy, PartialEq, Eq, Structural)]
pub enum DeliveryOutcome {
    Delivered,
    Lost,
}

/// Publications by their tickets: those not yet sent in order, those not yet
/// settled and whether somebody asks for them, those sent under a packet number,
/// and what became of those that somebody asked for.
#[verifier::ext_equal]
pub struct Deliveries {
    pub next_ticket: u64,
    pub queued: Seq<u64>,
    pub pending: Map<u64, bool>,
    pub packets: Map<u16, u64>,
    pub outcomes: Map<u64, DeliveryOutcome>,
}

impl Deliveries {
    /// Tickets are given out in order, and a settled ticket is no longer pending.
    pub open spec fn wf(self) -> bool {
        &&& forall|t: u64| #[trigger] self.pending.contains_key(t) ==> t <= self.next_ticket
        &&& forall|t: u64| #[trigger] self.outcomes.contains_key(t) ==> t <= self.next_ticket
        &&& forall|t: u64|
            #![trigger self.pending.contains_key(t)]
            #![trigger self.outcomes.contains_key(t)]
            !(self.pending.contains_key(t) && self.outcomes.contains_key(t))
    }

    pub open spec fn reserved(self, observed: bool) -> Deliveries {
        let ticket = (self.next_ticket + 1) as u64;
        Deliveries {
            next_ticket: ticket,
            queued: self.queued.push(ticket),
            pending: self.pending.insert(ticket, observed),
            ..self
        }
    }

    /// A ticket is settled; the outcome is kept where somebody asks for it.
    pub open spec fn settled(self, ticket: u64, outcome: DeliveryOutcome) -> Deliveries {
        Deliveries {
            pending: self.pending.remove(ticket),
            outcomes: if self.pending.contains_key(ticket) && self.pending[ticket] {
                self.outcomes.insert(ticket, outcome)
            } else {
                self.outcomes
            },
            ..self
        }
    }

    pub open spec fn cancelled(self, ticket: u64) -> Deliveries {
        Deliveries {
            queued: without(self.queued, ticket),
            ..self.settled(ticket, DeliveryOutcome::Lost)
        }
    }

    /// The next publication goes out. A packet number that is already in use is a
    /// repetition; number zero needs no acknowledgement.
    pub open spec fn sent(self, packet: u16) -> Deliveries {
        if self.packets.contains_key(packet) || self.queued.len() == 0 {
            self
        } else {
            let ticket = self.queued.first();
            let next = Deliveries { queued: self.queued.drop_first(), ..self };
            if packet == 0 {
                next.settled(ticket, DeliveryOutcome::Delivered)
            } else {
                Deliveries { packets: self.packets.insert(packet, ticket), ..next }
            }
        }
    }

    pub open spec fn acknowledged(self, packet: u16) -> Deliveries {
        if self.packets.contains_key(packet) {
            Deliveries { packets: self.packets.remove(packet), ..self }.settled(
                self.packets[packet],
                DeliveryOutcome::Delivered,
            )
        } else {
            self
        }
    }

    /// Everything that is not settled is lost.
    pub open spec fn interrupted(self) -> Deliveries {
        Deliveries {
            next_ticket: self.next_ticket,
            queued: Seq::empty(),
            pending: Map::empty(),
            packets: Map::empty(),
            outcomes: Map::new(
                |t: u64|
                    self.outcomes.contains_key(t) || (self.pending.contains_key(t)
                        && self.pending[t]),
                |t: u64|
                    if self.pending.contains_key(t) && self.pending[t] {
                        DeliveryOutcome::Lost
                    } else {
                        self.outcomes[t]
                    },
            ),
        }
    }

    /// What became of a publication does not change again.
    pub proof fn outcomes_stay(self, ticket: u64, other: u64, packet: u16, observed: bool)
        requires
            self.wf(),
            self.outcomes.contains_key(ticket),
            self.next_ticket < u64::MAX,
        ensures
            self.reserved(observed).outcomes.contains_key(ticket),
            self.reserved(observed).outcomes[ticket] == self.outcomes[ticket],
            self.cancelled(other).outcomes.contains_key(ticket),
            self.cancelled(other).outcomes[ticket] == self.outcomes[ticket],
            self.sent(packet).outcomes.contains_key(ticket),
            self.sent(packet).outcomes[ticket] == self.outcomes[ticket],
            self.acknowledged(packet).outcomes.contains_key(ticket),
            self.acknowledged(packet).outcomes[ticket] == self.outcomes[ticket],
            self.interrupted().outcomes.contains_key(ticket),
            self.interrupted().outcomes[ticket] == self.outcomes[ticket],
    {
        assert(!self.pending.contains_key(ticket));
    }

    /// An interruption loses whatever somebody asks for and is not settled, and a
    /// packet number can be used again.
    pub proof fn interruption_loses(self, ticket: u64, packet: u16)
        requires
            self.pending.contains_key(ticket),
            self.pending[ticket],
        ensures
            self.interrupted().outcomes.contains_key(ticket),
            self.interrupted().outcomes[ticket] == DeliveryOutcome::Lost,
            !self.interrupted().packets.contains_key(packet),
            self.interrupted().pending.is_empty(),
    {
    }

    /// A packet that is sent again takes no further publication.
    pub proof fn repetition_is_ignored(self, packet: u16)
        requires
            packet != 0,
            self.queued.len() > 0,
            !self.packets.contains_key(packet),
        ensures
            self.sent(packet).sent(packet) == self.sent(packet),
            self.sent(packet).packets[packet] == self.queued.first(),
    {
    }
}

/// The tickets but one.
pub open spec fn without(tickets: Seq<u64>, ticket: u64) -> Seq<u64>
    decreases tickets.len(),
{
    if tickets.len() == 0 {
        tickets
    } else {
        let before = without(tickets.drop_last(), ticket);
        if tickets.last() == ticket {
            before
        } else {
            before.push(tickets.last())
        }
    }
}

/// Follows publications on their way to the broker.
pub struct DeliveryTracker {
    pub next_ticket: u64,
    pub queued: Vec<u64>,
    pub pending: BTreeMap<u64, bool>,
    pub packets: BTreeMap<u16, u64>,
    pub outcomes: BTreeMap<u64, DeliveryOutcome>,
}

impl Default for DeliveryTracker {
    fn default() -> (tracker: Self)
        ensures
            tracker@ == (Deliveries {
                next_ticket: 0,
                queued: Seq::empty(),
                pending: Map::empty(),
                packets: Map::empty(),
                outcomes: Map::empty(),
            }),
            tracker@.wf(),
    {
        DeliveryTracker {
            next_ticket: 0,
            queued: Vec::new(),
            pending: BTreeMap::new(),
            packets: BTreeMap::new(),
            outcomes: BTreeMap::new(),
        }
    }
}

impl DeliveryTracker {
    pub open spec fn view(&self) -> Deliveries {
        Deliveries {
            next_ticket: self.next_ticket,
            queued: self.queued@,
            pending: self.pending@,
            packets: self.packets@,
            outcomes: self.outcomes@,
        }
    }

    /// Takes a ticket for a publication that is about to be handed over.
    pub fn reserve(&mut self, observe_outcome: bool) -> (result: Result<DeliveryTicket, MqttError>)
        ensures
            if old(self).next_ticket == u64::MAX {
                &&& result matches Err(error) && error.kind is Fatal && error.message@
                    == "MQTT delivery ticket space exhausted"@
                &&& final(self)@ == old(self)@
            } else {
                &&& result matches Ok(ticket) && ticket.value == old(self).next_ticket + 1
                &&& final(self)@ == old(self)@.reserved(observe_outcome)
            },
            old(self)@.wf() ==> final(self)@.wf(),
    {
        let ticket: u64 = match self.next_ticket.checked_add(1) {
            Some(ticket) => ticket,
            None => return Err(MqttError::fatal("MQTT delivery ticket space exhausted")),
        };
        self.next_ticket = ticket;
        self.queued.push(ticket);
        self.pending.insert(ticket, observe_outcome);
        Ok(DeliveryTicket { value: ticket })
    }

    fn settle(&mut self, ticket: u64, outcome: DeliveryOutcome)
        ensures
            final(self)@ == old(self)@.settled(ticket, outcome),
            old(self)@.wf() ==> final(self)@.wf(),
    {
        let observed = match self.pending.remove(&ticket) {
            Some(observed) => observed,
            None => false,
        };
        if observed {
            self.outcomes.insert(ticket, outcome);
        }
        proof {
            let before = old(self)@;
            let after = self@;
            assert(after =~= before.settled(ticket, outcome));
            if before.wf() {
                assert forall|t: u64| #[trigger] after.outcomes.contains_key(t) implies t
                    <= after.next_ticket && !after.pending.contains_key(t) by {
                    assert(before.outcomes.contains_key(t) || before.pending.contains_key(t));
                }
                assert forall|t: u64| #[trigger] after.pending.contains_key(t) implies t
                    <= after.next_ticket && !after.outcomes.contains_key(t) by {
                    assert(before.pending.contains_key(t));
                }
            }
        }
    }

    /// The publication was not handed over after all.
    pub fn cancel(&mut self, ticket: DeliveryTicket)
        ensures
            final(self)@ == old(self)@.cancelled(ticket.value),
            old(self)@.wf() ==> final(self)@.wf(),
    {
        let ghost before = self.queued@;
        let mut kept: Vec<u64> = Vec::new();
        let mut i: usize = 0;
        assert(before.take(0) =~= Seq::<u64>::empty());
        while i < self.queued.len()
            invariant
                i <= self.queued@.len(),
                self.queued@ == before,
                self@ == old(self)@,
                kept@ == without(before.take(i as int), ticket.value),
            decreases self.queued@.len() - i,
        {
            let queued: u64 = self.queued[i];
            assert(before.take(i + 1).drop_last() =~= before.take(i as int));
            if queued != ticket.value {
                kept.push(queued);
            }
            i = i + 1;
        }
        assert(before.take(i as int) =~= before);
        self.queued = kept;
        assert(self@.pending == old(self)@.pending && self@.outcomes == old(self)@.outcomes);
        assert(old(self)@.wf() ==> self@.wf());
        self.settle(ticket.value, DeliveryOutcome::Lost);
    }

    /// A publication went out under a packet number.
    pub fn outgoing_publish(&mut self, packet_id: u16)
        ensures
            final(self)@ == old(self)@.sent(packet_id),
            old(self)@.wf() ==> final(self)@.wf(),
    {
        if self.packets.contains_key(&packet_id) || self.queued.len() == 0 {
            return;
        }
        let ticket: u64 = self.queued.remove(0);
        assert(self.queued@ =~= old(self).queued@.drop_first());
        if packet_id == 0 {
            self.settle(ticket, DeliveryOutcome::Delivered);
        } else {
            self.packets.insert(packet_id, ticket);
        }
    }

    /// The broker acknowledged a packet.
    pub fn puback(&mut self, packet_id: u16)
        ensures
            final(self)@ == old(self)@.acknowledged(packet_id),
            old(self)@.wf() ==> final(self)@.wf(),
    {
        let acknowledged = self.packets.remove(&packet_id);
        if let Some(ticket) = acknowledged {
            self.settle(ticket, DeliveryOutcome::Delivered);
        } else {
            assert(self.packets@ =~= old(self).packets@);
        }
    }

    fn pending_tickets(&self) -> (tickets: Vec<u64>)
        ensures
            forall|t: u64| self.pending@.contains_key(t) <==> tickets@.contains(t),
    {
        broadcast use vstd::std_specs::btree::group_btree_axioms;

        let mut tickets: Vec<u64> = Vec::new();
        for key in iter: self.pending.keys()
            invariant
                tickets@.len() == iter.index(),
                iter.seq() == vstd::std_specs::iter::IteratorSpec::remaining(
                    &vstd::std_specs::btree::spec_keys_iter(&self.pending),
                ),
                forall|j: int| 0 <= j < tickets@.len() ==> tickets@[j] == *iter.seq()[j],
        {
            tickets.push(*key);
        }
        proof {
            let keys = vstd::std_specs::iter::IteratorSpec::remaining(
                &vstd::std_specs::btree::spec_keys_iter(&self.pending),
            );
            assert(tickets@ =~= keys.unref());
            assert(keys.unref().to_set() == self.pending@.dom());
            assert forall|t: u64| self.pending@.contains_key(t) <==> tickets@.contains(t) by {
                assert(tickets@.to_set().contains(t) <==> tickets@.contains(t));
            }
        }
        tickets
    }

    /// The connection is gone.
    pub fn connection_lost(&mut self)
        ensures
            final(self)@ == old(self)@.interrupted(),
            old(self)@.wf() ==> final(self)@.wf(),
    {
        let tickets = self.pending_tickets();
        let mut i: usize = 0;
        while i < tickets.len()
            invariant
                i <= tickets@.len(),
                self.next_ticket == old(self).next_ticket,
                forall|t: u64| old(self).pending@.contains_key(t) <==> tickets@.contains(t),
                forall|t: u64| #[trigger]
                    self.pending@.contains_key(t) ==> old(self).pending@.contains_key(t)
                        && self.pending@[t] == old(self).pending@[t],
                forall|j: int|
                    0 <= j < i ==> !self.pending@.contains_key(#[trigger] tickets@[j]),
                forall|t: u64|
                    old(self).pending@.contains_key(t) && #[trigger] self.pending@.contains_key(
                        t,
                    ) ==> (self.outcomes@.contains_key(t) == old(self).outcomes@.contains_key(t)
                        && self.outcomes@[t] == old(self).outcomes@[t]),
                forall|t: u64|
                    old(self).pending@.contains_key(t) && !(
                    #[trigger] self.pending@.contains_key(t)) ==> if old(self).pending@[t] {
                        self.outcomes@.contains_key(t) && self.outcomes@[t]
                            == DeliveryOutcome::Lost
                    } else {
                        self.outcomes@.contains_key(t) == old(self).outcomes@.contains_key(t)
                            && self.outcomes@[t] == old(self).outcomes@[t]
                    },
                forall|t: u64|
                    !old(self).pending@.contains_key(t) ==> (
                    #[trigger] self.outcomes@.contains_key(t)) == old(
                        self,
                    ).outcomes@.contains_key(t) && self.outcomes@[t] == old(self).outcomes@[t],
            decreases tickets@.len() - i,
        {
            let ticket: u64 = tickets[i];
            assert(tickets@.contains(ticket));
            let ghost before = self@;
            self.settle(ticket, DeliveryOutcome::Lost);
            i = i + 1;
        }
        self.queued.clear();
        self.packets.clear();
        proof {
            let goal = old(self)@.interrupted();
            assert forall|t: u64| !#[trigger] self.pending@.contains_key(t) by {
                if self.pending@.contains_key(t) {
                    assert(tickets@.contains(t));
                    let j = choose|j: int| 0 <= j < tickets@.len() && tickets@[j] == t;
                    assert(!self.pending@.contains_key(tickets@[j]));
                }
            }
            assert(self.pending@ =~= goal.pending);
            assert forall|t: u64| #[trigger] self.outcomes@.contains_key(t)
                == goal.outcomes.contains_key(t) && (goal.outcomes.contains_key(t)
                ==> self.outcomes@[t] == goal.outcomes[t]) by {
                let _ = self.pending@.contains_key(t);
            }
            assert(self.outcomes@ =~= goal.outcomes);
        }
    }

    pub fn outcome(&self, ticket: DeliveryTicket) -> (outcome: Option<DeliveryOutcome>)
        ensures
            outcome == if self@.outcomes.contains_key(ticket.value) {
                Some(self@.outcomes[ticket.value])
            } else {
                None
            },
    {
        match self.outcomes.get(&ticket.value) {
            Some(outcome) => Some(*outcome),
            None => None,
        }
    }

    /// Every publication is settled.
    pub fn is_idle(&self) -> (idle: bool)
        ensures
            idle == self@.pending.is_empty(),
    {
        self.pending.is_empty()
    }

    /// Whether the last word of the service has arrived; none while that is open.
    pub fn verdict(&self, ticket: DeliveryTicket) -> (verdict: Option<Result<(), MqttError>>)
        ensures
            match verdict {
                None => !self@.outcomes.contains_key(ticket.value),
                Some(Ok(())) => self@.outcomes.contains_key(ticket.value)
                    && self@.outcomes[ticket.value] is Delivered,
                Some(Err(error)) => self@.outcomes.contains_key(ticket.value)
                    && self@.outcomes[ticket.value] is Lost && error.kind is Transport
                    && error.message@ == "MQTT offline status was not acknowledged"@,
            },
    {
        match self.outcome(ticket) {
            Some(DeliveryOutcome::Delivered) => Some(Ok(())),
            Some(DeliveryOutcome::Lost) => Some(
                Err(MqttError::transport("MQTT offline status was not acknowledged")),
            ),
            None => None,
        }
    }
}

/// First pause before connecting again, in milliseconds.
pub const INITIAL_RECONNECT_BACKOFF_MS: u64 = 250;

/// Longest pause before connecting again, in milliseconds.
pub const MAX_RECONNECT_BACKOFF_MS: u64 = 30_000;

/// Where the connection stands.
#[derive(Debug, Clone, Copy, PartialEq, Eq)]
pub struct ReconnectState {
    pub connected: bool,
    pub failures: u32,
}

impl Default for ReconnectState {
    fn default() -> (state: Self)
        ensures
            state == (ReconnectState { connected: false, failures: 0 }),
    {
        ReconnectState { connected: false, failures: 0 }
    }
}

/// Powers of two up to the seventh.
pub open spec fn doubled(failures: u32) -> int {
    if failures == 0 {
        1
    } else if failures == 1 {
        2
    } else if failures == 2 {
        4
    } else if failures == 3 {
        8
    } else if failures == 4 {
        16
    } else if failures == 5 {
        32
    } else if failures == 6 {
        64
    } else {
        128
    }
}

impl ReconnectState {
    /// The pause after so many failures: it doubles each time, up to a bound.
    pub open spec fn backoff(failures: u32) -> int {
        let pause = INITIAL_RECONNECT_BACKOFF_MS * doubled(failures);
        if pause < MAX_RECONNECT_BACKOFF_MS {
            pause
        } else {
            MAX_RECONNECT_BACKOFF_MS as int
        }
    }

    pub fn connected(&mut self)
        ensures
            *final(self) == (ReconnectState { connected: true, failures: 0 }),
    {
        self.connected = true;
        self.failures = 0;
    }

    /// Notes a failure: whether a connection ended with it, and how long to wait in
    /// milliseconds before the next attempt.
    pub fn after_poll_error(&mut self) -> (result: (bool, u64))
        ensures
            result.0 == old(self).connected,
            result.1 == ReconnectState::backoff(old(self).failures),
            *final(self) == (ReconnectState {
                connected: false,
                failures: if old(self).failures < u32::MAX {
                    (old(self).failures + 1) as u32
                } else {
                    u32::MAX
                },
            }),
    {
        let ended = self.connected;
        self.connected = false;
        let exponent: u32 = if self.failures < 7 {
            self.failures
        } else {
            7
        };
        let mut multiplier: u64 = 1;
        let mut e: u32 = 0;
        while e < exponent
            invariant
                e <= exponent <= 7,
                multiplier == doubled(e),
            decreases exponent - e,
        {
            multiplier = multiplier * 2;
            e = e + 1;
        }
        let pause: u64 = INITIAL_RECONNECT_BACKOFF_MS * multiplier;
        let delay: u64 = if pause < MAX_RECONNECT_BACKOFF_MS {
            pause
        } else {
            MAX_RECONNECT_BACKOFF_MS
        };
        self.failures = self.failures.saturating_add(1);
        (ended, delay)
    }

    /// The pause never shrinks while attempts fail, and stays within its bounds.
    pub proof fn backoff_grows(a: u32, b: u32)
        requires
            a <= b,
        ensures
            INITIAL_RECONNECT_BACKOFF_MS <= ReconnectState::backoff(a) <= ReconnectState::backoff(b)
                <= MAX_RECONNECT_BACKOFF_MS,
    {
    }
}

} // verus!
