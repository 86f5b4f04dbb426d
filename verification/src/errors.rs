//! Error types surfaced by the runtime core.

use vstd::prelude::*;

verus! {

/// The error type produced by an actor's own lifecycle hooks, allowing a
/// custom error type through the generic parameter.
#[derive(Debug, Clone, PartialEq, Eq)]
pub enum ActorError<E> {
    /// A custom error raised by the actor itself, typically from `initialize`.
    CustomError(E),
    /// The supervisor failed to receive a message from its mailbox.
    MessageReceiveError,
    /// A message handler failed to send its response.
    ResponseFailed,
}

/// The error returned when a send does not produce a response.
#[derive(Debug, Clone, PartialEq, Eq)]
pub enum SendError {
    /// The target actor no longer exists at dispatch time.
    ActorGone,
    /// The response channel was dropped before a response arrived, for
    /// example during shutdown.
    NoResponse,
    /// The foreign transport failed; carries the transport's fault code.
    Transport(u64),
    /// Encoding the message or decoding the response failed.
    Serialization,
}

/// The error returned from `add` and `add_named`: the actor was not
/// registered.
#[derive(Debug, Clone, PartialEq, Eq)]
pub enum ActorInitError<E> {
    /// The actor's `initialize` hook failed; carries the actor's error.
    Custom(E),
    /// The system had already shut down.
    SystemGone,
}

/// Errors raised by the system facade itself.
#[derive(Debug, Clone, PartialEq, Eq)]
pub enum SystemError {
    /// The operation was attempted after the system shut down.
    SystemGone,
}

} // verus!
