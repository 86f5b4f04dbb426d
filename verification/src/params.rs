//! Parameter bundles: helpers that turn the parameter traits' associated
//! types into ordinary generics, for applications that prefer passing one
//! type in place of several.

use vstd::prelude::*;

use crate::messages::{Actor, Handler, Message};

verus! {

/// The message types a host wires through one system, under one name.
pub trait MessageParams {
    /// The message type carried across the foreign bridge.
    type Federated: Message;

    /// The message type broadcast to interested actors.
    type Notification: Message;
}

/// The types a system is built over, under one name.
pub trait SystemParams {
    /// The bundle of message types this system speaks.
    type SystemMessages: MessageParams;
}

/// The types an actor is registered with, under one name.
pub trait ActorParams<S: SystemParams> {
    /// The message type this actor is addressed with.
    type Message: Message;

    /// The actor type itself.
    type Actor: ParamActor<Self::Message, S>;
}

/// An actor fit for registration under the given parameters: it is an
/// actor, and it handles the message type.
pub trait ParamActor<M: Message, S: SystemParams>: Actor + Handler<M> {

}

impl<T, M, S> ParamActor<M, S> for T where T: Actor + Handler<M>, M: Message, S: SystemParams {

}

/// Converts two message types into a [`MessageParams`] bundle.
pub struct MessageGenerics<F: Message, N: Message> {
    federated: core::marker::PhantomData<F>,
    notification: core::marker::PhantomData<N>,
}

impl<F: Message, N: Message> MessageParams for MessageGenerics<F, N> {
    type Federated = F;

    type Notification = N;
}

/// Converts a [`MessageParams`] bundle into a [`SystemParams`] bundle.
pub struct SystemGenerics<M: MessageParams> {
    messages: core::marker::PhantomData<M>,
}

impl<M: MessageParams> SystemParams for SystemGenerics<M> {
    type SystemMessages = M;
}

/// Converts an actor and its message type into an [`ActorParams`] bundle.
pub struct ActorGenerics<A: Actor, M: Message> {
    actor: core::marker::PhantomData<A>,
    message: core::marker::PhantomData<M>,
}

impl<A, M, S> ActorParams<S> for ActorGenerics<A, M> where
    A: ParamActor<M, S>,
    M: Message,
    S: SystemParams,
 {
    type Message = M;

    type Actor = A;
}

} // verus!
