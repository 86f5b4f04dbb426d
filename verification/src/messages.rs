//! Message and handler contracts: what a message is, what it means for an
//! actor to handle one, and the context an actor sees while handling.

use vstd::prelude::*;

verus! {

/// A message: a value carrying an associated response type.
pub trait Message: Sized {
    /// The type of the response produced for this message.
    type Response;
}

/// An actor: a stateful value with lifecycle hooks.  The `initialize` hook
/// runs once before any message is delivered; `deinitialize` runs best-effort
/// when the actor's supervisor stops.
pub trait Actor: Sized {
    /// The actor's own error type, surfaced to the caller of `add`.
    type Error;

    /// Runs once before the actor is registered; failure keeps the actor out
    /// of the registry.
    fn initialize(&mut self) -> Result<(), Self::Error>;

    /// Runs when the actor's supervisor stops; the outcome is advisory.
    fn deinitialize(&mut self) -> Result<(), Self::Error>;
}

/// An actor that accepts messages of type `M` and produces `M::Response`.
pub trait Handler<M: Message>: Actor {
    /// Handles one message, with exclusive access to the actor's state and
    /// shared access to the actor's context.
    fn handle(&mut self, context: &ActorContext, message: M) -> M::Response;
}

/// A message that can cross the foreign bridge: it can be encoded to bytes,
/// decoded from bytes, and its response likewise.
pub trait WireMessage: Message {
    /// Encodes the message for the transport; `None` when the value cannot
    /// be represented.
    fn encode(&self) -> Option<Vec<u8>>;

    /// Decodes a message arriving from the transport.
    fn decode(bytes: &Vec<u8>) -> Option<Self>;

    /// Encodes a response for the transport.
    fn encode_response(response: &Self::Response) -> Option<Vec<u8>>;

    /// Decodes a response arriving from the transport.
    fn decode_response(bytes: &Vec<u8>) -> Option<Self::Response>;
}

/// The context an actor sees while handling a message: its own id and the
/// id of the owning system.
#[derive(Debug, Clone, PartialEq, Eq)]
pub struct ActorContext {
    id: u64,
    system_id: Vec<u8>,
}

impl ActorContext {
    /// The id of this actor, as in its view.
    pub closed spec fn id_spec(&self) -> u64 {
        self.id
    }

    /// The id of the owning system, as in its view.
    pub closed spec fn system_id_spec(&self) -> Seq<u8> {
        self.system_id@
    }

    /// Binds an actor id and a system id into a context.
    pub fn new(id: u64, system_id: Vec<u8>) -> (r: ActorContext)
        ensures
            r.id_spec() == id,
            r.system_id_spec() == system_id@,
    {
        ActorContext { id, system_id }
    }

    /// This actor's id.
    pub fn id(&self) -> (r: u64)
        ensures
            r == self.id_spec(),
    {
        self.id
    }

    /// The owning system's id.
    pub fn system_id(&self) -> (r: &Vec<u8>)
        ensures
            r@ == self.system_id_spec(),
    {
        &self.system_id
    }
}

} // verus!
