//! The foreign bridge: the delegate abstraction for reaching other
//! systems, the envelope relayed between them, and the exact mapping of
//! transport and codec failures onto send errors.

use vstd::prelude::*;

use crate::errors::SendError;
use crate::ident::{IdentShape, Identifier};

verus! {

/// The envelope handed to and received from a delegate: a target address
/// and the serialised message bytes.  The concrete byte format is the
/// delegate's concern.
#[derive(Debug, Clone, PartialEq, Eq)]
pub struct ForeignMessage {
    /// The address of the actor the payload is for.
    pub target: Identifier,
    /// The serialised message.
    pub payload: Vec<u8>,
}

impl ForeignMessage {
    /// Binds a target and a payload into an envelope.
    pub fn new(target: Identifier, payload: Vec<u8>) -> (r: ForeignMessage)
        ensures
            r.target@ == target@,
            r.payload@ == payload@,
    {
        ForeignMessage { target, payload }
    }

    /// The target of the envelope.
    pub fn get_target(&self) -> (r: &Identifier)
        ensures
            r@ == self.target@,
    {
        &self.target
    }

    /// Strips the system prefix off the target: an envelope addressed as
    /// `system:x` becomes one addressed as `x`, for delivery once it has
    /// arrived on system `system`.  A target without a prefix is kept.
    pub fn pop_target(self) -> (r: ForeignMessage)
        ensures
            r.payload@ == self.payload@,
            r.target@ == pop_shape(self.target@),
    {
        let ForeignMessage { target, payload } = self;
        let target = match target {
            Identifier::Foreign(_, id) => Identifier::Local(id),
            Identifier::ForeignNamed(_, name) => Identifier::LocalNamed(name),
            other => other,
        };
        ForeignMessage { target, payload }
    }
}

/// The shape of a target after its system prefix is stripped.
pub open spec fn pop_shape(t: IdentShape) -> IdentShape {
    match t {
        IdentShape::Foreign(_, id) => IdentShape::Local(id),
        IdentShape::ForeignNamed(_, name) => IdentShape::LocalNamed(name),
        other => other,
    }
}

/// The capability injected at system construction that reaches other
/// systems.  The core never retries on its behalf: a failure surfaces as
/// the corresponding send error.
pub trait Delegate: Sized {
    /// Whether this delegate can produce a sender for the target; a miss
    /// makes the unified lookup answer `None`.
    fn knows(&self, target: &Identifier) -> bool;

    /// Performs one request/response round trip: hands the serialised
    /// message to the transport and returns the serialised response, or a
    /// transport fault code.
    fn round_trip(&mut self, target: &Identifier, payload: Vec<u8>) -> Result<Vec<u8>, u64>;

    /// Relays an envelope one way towards its target system, returning a
    /// transport fault code if nobody can take it.
    fn forward(&mut self, message: ForeignMessage) -> Result<(), u64>;
}

/// The delegate of a system without a transport: it knows no foreign
/// actor, and every transport operation fails.
#[derive(Debug, Clone, Copy, PartialEq, Eq)]
pub struct NoDelegate;

impl Delegate for NoDelegate {
    fn knows(&self, target: &Identifier) -> (r: bool)
        ensures
            !r,
    {
        false
    }

    fn round_trip(&mut self, target: &Identifier, payload: Vec<u8>) -> (r: Result<Vec<u8>, u64>)
        ensures
            r == Err::<Vec<u8>, u64>(0u64),
    {
        Err(0)
    }

    fn forward(&mut self, message: ForeignMessage) -> (r: Result<(), u64>)
        ensures
            r == Err::<(), u64>(0u64),
    {
        Err(0)
    }
}

/// Maps the delegate's round-trip outcome onto the send error taxonomy:
/// transport faults become `Transport` with their code, success passes the
/// bytes through.
pub fn map_transport(outcome: Result<Vec<u8>, u64>) -> (r: Result<Vec<u8>, SendError>)
    ensures
        match outcome {
            Ok(bytes) => r matches Ok(b) && b@ == bytes@,
            Err(code) => r == Err::<Vec<u8>, SendError>(SendError::Transport(code)),
        },
{
    match outcome {
        Ok(bytes) => Ok(bytes),
        Err(code) => Err(SendError::Transport(code)),
    }
}

/// Maps a decode outcome onto the send error taxonomy: a value that did
/// not decode becomes `Serialization`.
pub fn map_decode<R>(decoded: Option<R>) -> (r: Result<R, SendError>)
    ensures
        match decoded {
            Some(v) => r == Ok::<R, SendError>(v),
            None => r == Err::<R, SendError>(SendError::Serialization),
        },
{
    match decoded {
        Some(v) => Ok(v),
        None => Err(SendError::Serialization),
    }
}

} // verus!
