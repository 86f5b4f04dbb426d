//! A verified core for an in-process actor runtime.
//!
//! The crate hosts long-lived stateful entities ("actors") that are talked to
//! exclusively through typed request/response messages.  Each actor owns a
//! FIFO mailbox and is driven by a supervisor; a system facade composes the
//! registry (id allocation and name binding), the supervisors, and a foreign
//! delegate bridge for identifiers that name another system.
//!
//! Asynchronous execution (task spawning, awaiting mailbox slots, transports)
//! belongs to the embedding; this crate holds the decision and bookkeeping
//! core, with its behaviour stated in contracts.

use vstd::prelude::*;

pub mod errors;
pub mod foreign;
pub mod handle;
pub mod ident;
pub mod mailbox;
pub mod messages;
pub mod params;
pub mod policy;
pub mod supervisor;
pub mod system;

verus! {

} // verus!
