//! The core of a peer-to-peer networking service: the decisions of its event
//! loop (sessions, handshakes, listens, dials, shutdown), the queues that carry
//! backpressure between the loop, the sessions and the protocol handlers, and
//! the laws that these decisions keep.
use vstd::prelude::*;

pub mod buffer;
pub mod compat;
pub mod control;
pub mod event;
pub mod multiaddr;
pub mod payload;
pub mod service;
pub mod state;
pub mod traits;
pub mod types;

verus! {

} // verus!
