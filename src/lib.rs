//! A lockstep request/acknowledgement protocol over an unreliable datagram transport.
//!
//! The client drives numbered exchanges one at a time and retransmits on silence; the
//! server echoes each request, answers silence with its last reply, and ends the session
//! on a finalization message. Both sides keep a ledger of the numbers they have seen and
//! report it as maximal runs of consecutive numbers. The state machines here take events
//! and return what to send; the transport and the wire encoding stand outside.
use vstd::prelude::*;

pub mod client;
pub mod ledger;
pub mod message;
pub mod server;

verus! {

} // verus!
