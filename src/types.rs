//! Identifiers and small enumerations shared by the whole service.
use vstd::prelude::*;

verus! {

/// Identifier of an open session; allocated by the service, unique among the
/// sessions that are open at one time.
pub type SessionId = u32;

/// Identifier of a protocol, chosen by the embedder; unique within the registry.
pub type ProtocolId = usize;

/// Which side opened a connection.
#[derive(Clone, Copy, Debug, PartialEq, Eq, Structural)]
pub enum SessionType {
    /// The remote peer dialed this service.
    Inbound,
    /// This service dialed the remote peer.
    Outbound,
}

impl SessionType {
    pub fn is_outbound(&self) -> (r: bool)
        ensures
            r == (*self == SessionType::Outbound),
    {
        match self {
            SessionType::Outbound => true,
            SessionType::Inbound => false,
        }
    }

    pub fn is_inbound(&self) -> (r: bool)
        ensures
            r == (*self == SessionType::Inbound),
    {
        match self {
            SessionType::Outbound => false,
            SessionType::Inbound => true,
        }
    }
}

/// Priority of a task or of an event queued for a session.
#[derive(Clone, Copy, Debug, PartialEq, Eq, Structural)]
pub enum Priority {
    High,
    Normal,
}

/// Where a change came from: from a session itself, or from the user through
/// the control handle.
#[derive(Clone, Copy, Debug, PartialEq, Eq, Structural)]
pub enum Source {
    Internal,
    External,
}

/// A background task that the service waits for when it ends.
#[derive(Clone, Copy, Debug, PartialEq, Eq, Hash, Structural)]
pub enum WaitTask {
    /// The runner of background tasks.
    FutureTasks,
    /// The service-level handler of a protocol.
    ServiceHandle(ProtocolId),
}

/// The sessions that a protocol message is sent to.
#[derive(Clone, Debug)]
pub enum TargetSession {
    /// Every open session.
    All,
    /// One session.
    Single(SessionId),
    /// Each of the listed sessions.
    Multi(Vec<SessionId>),
}

/// The protocols that are opened on a session.
#[derive(Clone, Debug)]
pub enum TargetProtocol {
    /// Every registered protocol.
    All,
    /// One protocol.
    Single(ProtocolId),
    /// Each of the listed protocols.
    Multi(Vec<ProtocolId>),
}

} // verus!
