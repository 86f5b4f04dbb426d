//! Typed handles: the local handle bound to one actor's id, and the
//! unified sender returned by the system's combined local/foreign lookup.
//! Users never see where a sender points; local and foreign senders are
//! interchangeable at the call site.

use vstd::prelude::*;

use crate::errors::SendError;
use crate::foreign::Delegate;
use crate::ident::Identifier;
use crate::messages::{Handler, Message, WireMessage};
use crate::system::System;

verus! {

/// A handle to an actor known to live on this system.  It can carry any
/// message its actor handles, without any serialisability constraint.
#[derive(Debug, Clone, Copy, PartialEq, Eq, Structural)]
pub struct LocalHandle {
    id: u64,
}

impl LocalHandle {
    /// The id of the actor this handle points at.
    pub closed spec fn id_spec(&self) -> u64 {
        self.id
    }

    /// Binds a handle to an actor id.
    pub fn new(id: u64) -> (r: LocalHandle)
        ensures
            r.id_spec() == id,
    {
        LocalHandle { id }
    }

    /// The id of the actor this handle points at.
    pub fn id(&self) -> (r: u64)
        ensures
            r == self.id_spec(),
    {
        self.id
    }

    /// Sends a message to the actor and waits for the response; messages
    /// already queued ahead of it are handled first, in arrival order.
    ///
    /// # Errors
    /// Returns `ActorGone` exactly when the actor is no longer live.
    pub fn request<A, M, D>(&self, system: &mut System<A, M, D>, message: M) -> (r: Result<
        M::Response,
        SendError,
    >) where M: Message, A: Handler<M>
        requires
            old(system).wf(),
            old(system).fresh_ticket() < u64::MAX,
        ensures
            final(system).wf(),
            final(system).sys_id() == old(system).sys_id(),
            final(system).bindings() == old(system).bindings(),
            final(system).fresh_id() == old(system).fresh_id(),
            forall|x: u64| final(system).live(x) == old(system).live(x),
            !old(system).live(self.id_spec()) ==> r == Err::<M::Response, SendError>(
                SendError::ActorGone,
            ) && *final(system) == *old(system),
            old(system).live(self.id_spec()) ==> r is Ok,
    {
        system.request(self.id, message)
    }

    /// Shuts the actor down gracefully: already queued messages are
    /// handled and answered first, then the actor leaves the registry.
    pub fn shutdown<A, M, D>(&self, system: &mut System<A, M, D>) where
        M: Message,
        A: Handler<M>,

        requires
            old(system).wf(),
        ensures
            final(system).wf(),
            final(system).sys_id() == old(system).sys_id(),
            final(system).bindings() == old(system).bindings(),
            final(system).fresh_id() == old(system).fresh_id(),
            !final(system).live(self.id_spec()),
            forall|x: u64|
                x != self.id_spec() ==> final(system).live(x) == old(system).live(x),
    {
        system.stop_actor(self.id)
    }
}

/// A sender for one target, local or foreign: the opaque capability the
/// unified lookup hands out.
#[derive(Debug, Clone, PartialEq, Eq)]
pub enum MessageSender {
    /// The target lives on this system.
    Local(LocalHandle),
    /// The target lives on another system; sends go through the delegate.
    Foreign(Identifier),
}

impl MessageSender {
    /// Sends a message through this sender and waits for the response: a
    /// local target is driven directly, a foreign one goes through the
    /// delegate's transport with the message encoded on the way out and
    /// the response decoded on the way back.
    pub fn send<A, M, D>(&self, system: &mut System<A, M, D>, message: M) -> (r: Result<
        M::Response,
        SendError,
    >) where M: WireMessage, A: Handler<M>, D: Delegate
        requires
            old(system).wf(),
            old(system).fresh_ticket() < u64::MAX,
        ensures
            final(system).wf(),
            final(system).sys_id() == old(system).sys_id(),
            final(system).bindings() == old(system).bindings(),
            final(system).fresh_id() == old(system).fresh_id(),
            forall|x: u64| final(system).live(x) == old(system).live(x),
            match self {
                MessageSender::Local(h) => {
                    &&& (!old(system).live(h.id_spec()) ==> r == Err::<M::Response, SendError>(
                        SendError::ActorGone,
                    ))
                    &&& (old(system).live(h.id_spec()) ==> r is Ok)
                },
                MessageSender::Foreign(_) => r is Err ==> (r matches Err(SendError::Transport(_))
                    || r == Err::<M::Response, SendError>(SendError::Serialization)),
            },
    {
        match self {
            MessageSender::Local(handle) => handle.request(system, message),
            MessageSender::Foreign(target) => system.request_foreign(target, message),
        }
    }
}

} // verus!
