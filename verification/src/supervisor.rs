//! The supervisor: it owns one actor, consumes the actor's mailbox in
//! strict arrival order, invokes the actor's handler for each message, and
//! records each response under the ticket the sender holds.

use vstd::prelude::*;

use crate::handle::LocalHandle;
use crate::mailbox::Mailbox;
use crate::messages::{Actor, ActorContext, Handler, Message};
use crate::policy::SupervisorErrorPolicy;

verus! {

/// A control envelope carried by an actor's mailbox: either a message with
/// the ticket under which its response is owed, or the shutdown signal.
#[derive(Debug)]
pub enum SupervisorMessage<M> {
    /// A message, with the ticket of its response.
    Message(u64, M),
    /// The request to stop after all earlier envelopes are processed.
    Shutdown,
}

/// The ticket of an envelope; the shutdown envelope carries none.
pub open spec fn env_ticket<M>(e: SupervisorMessage<M>) -> u64 {
    match e {
        SupervisorMessage::Message(t, _) => t,
        SupervisorMessage::Shutdown => 0,
    }
}

/// Whether an envelope carries a message.
pub open spec fn env_is_message<M>(e: SupervisorMessage<M>) -> bool {
    e is Message
}

/// What one supervisor step did.
#[derive(Debug, Clone, Copy, PartialEq, Eq)]
pub enum StepOutcome {
    /// The mailbox was empty; nothing happened.
    Idle,
    /// A message was handled and its response recorded.
    Handled,
    /// A message was discarded because the supervisor had already stopped;
    /// its ticket resolved to no response.
    Dropped,
    /// The shutdown envelope was processed; the supervisor stopped.
    Stopped,
}

/// The lifecycle of a supervisor.
#[derive(Debug, Clone, Copy, PartialEq, Eq)]
pub enum SupervisorPhase {
    /// Consuming the mailbox and invoking handlers.
    Running,
    /// Stopped; messages are no longer delivered.
    Stopped,
}

/// The struct responsible for one actor's entire lifecycle: the actor value
/// it exclusively owns, the actor's context, mailbox and error policy, and
/// the phase of its run loop.
#[derive(Debug)]
pub struct ActorSupervisor<A, M: Message> {
    id: u64,
    actor: A,
    context: ActorContext,
    policy: SupervisorErrorPolicy,
    mailbox: Mailbox<SupervisorMessage<M>>,
    phase: SupervisorPhase,
}

impl<A: Actor, M: Message> ActorSupervisor<A, M> {
    /// The id of the supervised actor.
    pub closed spec fn id_spec(&self) -> u64 {
        self.id
    }

    /// The supervised actor value.
    pub closed spec fn actor_spec(&self) -> A {
        self.actor
    }

    /// The context handed to the actor during handling.
    pub closed spec fn context_spec(&self) -> ActorContext {
        self.context
    }

    /// The error policy this supervisor applies.
    pub closed spec fn policy_spec(&self) -> SupervisorErrorPolicy {
        self.policy
    }

    /// The queued envelopes, in arrival order.
    pub closed spec fn msgs(&self) -> Seq<SupervisorMessage<M>> {
        self.mailbox@
    }

    /// The tickets of the queued envelopes, in arrival order.
    pub open spec fn tickets(&self) -> Seq<u64> {
        self.msgs().map_values(|e: SupervisorMessage<M>| env_ticket(e))
    }

    /// Whether the supervisor is still consuming its mailbox.
    pub closed spec fn running(&self) -> bool {
        self.phase is Running
    }

    /// The mailbox's advisory capacity.
    pub closed spec fn capacity_spec(&self) -> usize {
        self.mailbox.capacity_spec()
    }

    /// Whether every queued envelope is a message (the shutdown envelope is
    /// only ever queued while a shutdown is in progress).
    pub open spec fn only_messages(&self) -> bool {
        forall|k: int| 0 <= k < self.msgs().len() ==> env_is_message(#[trigger] self.msgs()[k])
    }

    /// Creates a supervisor around an actor that already initialized, bound
    /// to its id and the owning system.
    pub fn new(
        actor: A,
        id: u64,
        system_id: Vec<u8>,
        capacity: usize,
        policy: SupervisorErrorPolicy,
    ) -> (r: ActorSupervisor<A, M>)
        ensures
            r.id_spec() == id,
            r.actor_spec() == actor,
            r.context_spec().id_spec() == id,
            r.context_spec().system_id_spec() == system_id@,
            r.policy_spec() == policy,
            r.msgs() == Seq::<SupervisorMessage<M>>::empty(),
            r.running(),
            r.capacity_spec() == capacity,
    {
        ActorSupervisor {
            id,
            actor,
            context: ActorContext::new(id, system_id),
            policy,
            mailbox: Mailbox::new(capacity),
            phase: SupervisorPhase::Running,
        }
    }

    /// The actor's id.
    pub fn id(&self) -> (r: u64)
        ensures
            r == self.id_spec(),
    {
        self.id
    }

    /// A handle bound to the supervised actor's id.
    pub fn get_ref(&self) -> (r: LocalHandle)
        ensures
            r.id_spec() == self.id_spec(),
    {
        LocalHandle::new(self.id)
    }

    /// Whether the supervisor is still consuming its mailbox.
    pub fn is_running(&self) -> (r: bool)
        ensures
            r == self.running(),
    {
        match self.phase {
            SupervisorPhase::Running => true,
            SupervisorPhase::Stopped => false,
        }
    }

    /// The number of queued envelopes.
    pub fn queue_len(&self) -> (r: usize)
        ensures
            r == self.msgs().len(),
    {
        self.mailbox.len()
    }

    /// Whether the mailbox is below its advisory capacity.
    pub fn has_room(&self) -> (r: bool)
        ensures
            r <==> self.msgs().len() < self.capacity_spec(),
    {
        self.mailbox.has_room()
    }

    /// Enqueues a message envelope under the given ticket.
    pub fn post_message(&mut self, ticket: u64, message: M)
        ensures
            final(self).msgs() == old(self).msgs().push(
                SupervisorMessage::Message(ticket, message),
            ),
            final(self).id_spec() == old(self).id_spec(),
            final(self).actor_spec() == old(self).actor_spec(),
            final(self).context_spec() == old(self).context_spec(),
            final(self).policy_spec() == old(self).policy_spec(),
            final(self).running() == old(self).running(),
            final(self).capacity_spec() == old(self).capacity_spec(),
    {
        self.mailbox.push_back(SupervisorMessage::Message(ticket, message));
    }

    /// Enqueues the shutdown envelope.
    pub fn post_shutdown(&mut self)
        ensures
            final(self).msgs() == old(self).msgs().push(SupervisorMessage::Shutdown),
            final(self).id_spec() == old(self).id_spec(),
            final(self).actor_spec() == old(self).actor_spec(),
            final(self).context_spec() == old(self).context_spec(),
            final(self).policy_spec() == old(self).policy_spec(),
            final(self).running() == old(self).running(),
            final(self).capacity_spec() == old(self).capacity_spec(),
    {
        self.mailbox.push_back(SupervisorMessage::Shutdown);
    }

    /// Discards every queued envelope without invoking the handler: each
    /// discarded message's ticket is resolved to no response.  This is the
    /// non-graceful teardown a kill performs.
    pub fn discard_queue(&mut self, completions: &mut Vec<(u64, Option<M::Response>)>)
        requires
            old(self).only_messages(),
        ensures
            final(self).id_spec() == old(self).id_spec(),
            final(self).actor_spec() == old(self).actor_spec(),
            final(self).context_spec() == old(self).context_spec(),
            final(self).policy_spec() == old(self).policy_spec(),
            final(self).running() == old(self).running(),
            final(self).capacity_spec() == old(self).capacity_spec(),
            final(self).msgs().len() == 0,
            final(completions)@ == old(completions)@ + old(self).tickets().map_values(
                |t: u64| (t, None::<M::Response>),
            ),
    {
        let ghost ototal = self.msgs().len();
        let ghost otickets = self.tickets();
        proof {
            assert(self.tickets().take(0) =~= Seq::<u64>::empty());
            assert(old(completions)@ + Seq::<(u64, Option<M::Response>)>::empty() =~= old(
                completions,
            )@);
            assert(Seq::<u64>::empty().map_values(|t: u64| (t, None::<M::Response>)) =~= Seq::<
                (u64, Option<M::Response>),
            >::empty());
        }
        loop
            invariant
                self.only_messages(),
                self.id_spec() == old(self).id_spec(),
                self.actor_spec() == old(self).actor_spec(),
                self.context_spec() == old(self).context_spec(),
                self.policy_spec() == old(self).policy_spec(),
                self.running() == old(self).running(),
                self.capacity_spec() == old(self).capacity_spec(),
                self.msgs().len() <= ototal,
                ototal == old(self).msgs().len(),
                otickets == old(self).tickets(),
                self.msgs() == old(self).msgs().skip(ototal - self.msgs().len()),
                completions@ == old(completions)@ + otickets.take(
                    ototal - self.msgs().len(),
                ).map_values(|t: u64| (t, None::<M::Response>)),
            decreases self.msgs().len(),
        {
            let ghost p = ototal - self.msgs().len();
            let env = self.mailbox.pop_front();
            match env {
                None => {
                    proof {
                        assert(otickets.take(ototal as int) =~= otickets);
                    }
                    return ;
                },
                Some(SupervisorMessage::Message(t, _)) => {
                    completions.push((t, None));
                    proof {
                        assert(old(self).msgs().skip(p).drop_first() =~= old(self).msgs().skip(
                            p + 1,
                        ));
                        assert(old(self).msgs()[p] == old(self).msgs().skip(p)[0]);
                        assert(t == otickets[p]);
                        assert(otickets.take(p + 1) =~= otickets.take(p).push(otickets[p]));
                        assert(otickets.take(p + 1).map_values(
                            |t2: u64| (t2, None::<M::Response>),
                        ) =~= otickets.take(p).map_values(|t2: u64| (t2, None::<M::Response>)).push(
                            (t, None::<M::Response>),
                        ));
                    }
                },
                Some(SupervisorMessage::Shutdown) => {
                    proof {
                        assert(env_is_message(old(self).msgs()[p]));
                        assert(false);
                    }
                },
            }
        }
    }

    /// Runs the actor's `deinitialize` hook, re-invoking it as the policy's
    /// `deinitialize` action allows.  Only the actor value changes.
    pub fn run_deinitialize(&mut self)
        ensures
            final(self).id_spec() == old(self).id_spec(),
            final(self).context_spec() == old(self).context_spec(),
            final(self).policy_spec() == old(self).policy_spec(),
            final(self).msgs() == old(self).msgs(),
            final(self).running() == old(self).running(),
            final(self).capacity_spec() == old(self).capacity_spec(),
    {
        let allowed: u64 = self.policy.deinitialize.attempts_allowed();
        let mut attempt: u64 = 0;
        while attempt < allowed
            invariant
                self.id_spec() == old(self).id_spec(),
                self.context_spec() == old(self).context_spec(),
                self.policy_spec() == old(self).policy_spec(),
                self.msgs() == old(self).msgs(),
                self.running() == old(self).running(),
                self.capacity_spec() == old(self).capacity_spec(),
            decreases allowed - attempt,
        {
            let outcome = self.actor.deinitialize();
            if outcome.is_ok() {
                return ;
            }
            attempt = attempt + 1;
        }
    }
}

impl<M: Message, A: Handler<M>> ActorSupervisor<A, M> {
    /// Processes the front envelope of the mailbox, if any: a message is
    /// handled and its response recorded under its ticket (or, when the
    /// supervisor has already stopped, discarded and its ticket resolved to
    /// no response, without invoking the handler); the shutdown envelope
    /// stops the supervisor.
    pub fn step(&mut self, completions: &mut Vec<(u64, Option<M::Response>)>) -> (o: StepOutcome)
        ensures
            final(self).id_spec() == old(self).id_spec(),
            final(self).context_spec() == old(self).context_spec(),
            final(self).policy_spec() == old(self).policy_spec(),
            final(self).capacity_spec() == old(self).capacity_spec(),
            old(self).msgs().len() == 0 ==> {
                &&& final(self).msgs() == old(self).msgs()
                &&& final(self).running() == old(self).running()
                &&& final(self).actor_spec() == old(self).actor_spec()
                &&& *final(completions) == *old(completions)
                &&& o == StepOutcome::Idle
            },
            old(self).msgs().len() > 0 ==> {
                &&& final(self).msgs() == old(self).msgs().drop_first()
                &&& match old(self).msgs()[0] {
                    SupervisorMessage::Message(t, _) => {
                        &&& final(self).running() == old(self).running()
                        &&& final(completions)@.len() == old(completions)@.len() + 1
                        &&& final(completions)@.drop_last() == old(completions)@
                        &&& final(completions)@.last().0 == t
                        &&& if old(self).running() {
                            o == StepOutcome::Handled && final(completions)@.last().1 is Some
                        } else {
                            o == StepOutcome::Dropped && final(completions)@.last().1 is None
                                && final(self).actor_spec() == old(self).actor_spec()
                        }
                    },
                    SupervisorMessage::Shutdown => {
                        &&& o == StepOutcome::Stopped
                        &&& !final(self).running()
                        &&& *final(completions) == *old(completions)
                        &&& final(self).actor_spec() == old(self).actor_spec()
                    },
                }
            },
    {
        let env = self.mailbox.pop_front();
        match env {
            None => StepOutcome::Idle,
            Some(SupervisorMessage::Message(ticket, message)) => {
                match self.phase {
                    SupervisorPhase::Running => {
                        let response = self.actor.handle(&self.context, message);
                        completions.push((ticket, Some(response)));
                        proof {
                            assert(final(completions)@.drop_last() =~= old(completions)@);
                        }
                        StepOutcome::Handled
                    },
                    SupervisorPhase::Stopped => {
                        completions.push((ticket, None));
                        proof {
                            assert(final(completions)@.drop_last() =~= old(completions)@);
                        }
                        StepOutcome::Dropped
                    },
                }
            },
            Some(SupervisorMessage::Shutdown) => {
                self.phase = SupervisorPhase::Stopped;
                StepOutcome::Stopped
            },
        }
    }

    /// Performs this actor's graceful shutdown: enqueues the shutdown
    /// envelope, then keeps stepping until it is reached.  Every message
    /// already queued is handled first, in arrival order, and its response
    /// recorded; then the supervisor stops with an empty mailbox.
    pub fn drain_and_stop(&mut self, completions: &mut Vec<(u64, Option<M::Response>)>)
        requires
            old(self).only_messages(),
            old(self).running(),
        ensures
            final(self).id_spec() == old(self).id_spec(),
            final(self).context_spec() == old(self).context_spec(),
            final(self).policy_spec() == old(self).policy_spec(),
            final(self).capacity_spec() == old(self).capacity_spec(),
            !final(self).running(),
            final(self).msgs().len() == 0,
            final(completions)@.len() == old(completions)@.len() + old(self).msgs().len(),
            final(completions)@.take(old(completions)@.len() as int) == old(completions)@,
            forall|k: int|
                0 <= k < old(self).msgs().len() ==> {
                    &&& (#[trigger] final(completions)@[old(completions)@.len() + k]).0 == old(
                        self,
                    ).tickets()[k]
                    &&& final(completions)@[old(completions)@.len() + k].1 is Some
                },
    {
        let ghost ototal = self.msgs().len();
        let ghost omsgs = self.msgs();
        let ghost otickets = self.tickets();
        let ghost ocomp = completions@;
        self.post_shutdown();
        proof {
            assert(self.msgs() =~= omsgs.skip(0) + seq![SupervisorMessage::<M>::Shutdown]);
            assert(completions@.take(ocomp.len() as int) =~= ocomp);
        }
        loop
            invariant
                self.id_spec() == old(self).id_spec(),
                self.context_spec() == old(self).context_spec(),
                self.policy_spec() == old(self).policy_spec(),
                self.capacity_spec() == old(self).capacity_spec(),
                ototal == omsgs.len(),
                omsgs == old(self).msgs(),
                otickets == old(self).tickets(),
                ocomp == old(completions)@,
                forall|k: int| 0 <= k < ototal ==> env_is_message(#[trigger] omsgs[k]),
                self.running() ==> {
                    let p = ototal + 1 - self.msgs().len();
                    &&& self.msgs().len() >= 1
                    &&& self.msgs().len() <= ototal + 1
                    &&& self.msgs() == omsgs.skip(p) + seq![SupervisorMessage::<M>::Shutdown]
                    &&& completions@.len() == ocomp.len() + p
                },
                !self.running() ==> self.msgs().len() == 0 && completions@.len() == ocomp.len()
                    + ototal,
                completions@.take(ocomp.len() as int) == ocomp,
                forall|k: int|
                    0 <= k < completions@.len() - ocomp.len() ==> {
                        &&& (#[trigger] completions@[ocomp.len() + k]).0 == otickets[k]
                        &&& completions@[ocomp.len() + k].1 is Some
                    },
            decreases self.msgs().len(),
        {
            if !self.is_running() {
                return ;
            }
            let ghost p = ototal + 1 - self.msgs().len();
            let ghost pre_comp = completions@;
            let outcome = self.step(completions);
            proof {
                let front = (omsgs.skip(p) + seq![SupervisorMessage::<M>::Shutdown])[0];
                assert(0 <= p <= ototal);
                if p < ototal {
                    assert(omsgs.skip(p).len() == ototal - p);
                    assert(front == omsgs.skip(p)[0]);
                    assert(front == omsgs[p]);
                    assert(env_is_message(front));
                    assert(env_ticket(front) == otickets[p]);
                    assert(self.msgs() =~= omsgs.skip(p + 1) + seq![
                        SupervisorMessage::<M>::Shutdown,
                    ]);
                    assert(completions@.drop_last() == pre_comp);
                    assert(completions@.take(ocomp.len() as int) =~= pre_comp.take(
                        ocomp.len() as int,
                    ));
                    assert forall|k: int| 0 <= k < completions@.len() - ocomp.len() implies {
                        &&& (#[trigger] completions@[ocomp.len() + k]).0 == otickets[k]
                        &&& completions@[ocomp.len() + k].1 is Some
                    } by {
                        if k < p {
                            assert(completions@[ocomp.len() + k] == pre_comp[ocomp.len() + k]);
                        } else {
                            assert(ocomp.len() + k == completions@.len() - 1);
                            assert(completions@[ocomp.len() + k] == completions@.last());
                        }
                    }
                } else {
                    assert(omsgs.skip(p) =~= Seq::<SupervisorMessage<M>>::empty());
                    assert(front == SupervisorMessage::<M>::Shutdown);
                    assert(self.msgs() =~= Seq::<SupervisorMessage<M>>::empty());
                }
            }
        }
    }
}

} // verus!
