//! What flows into the service (user tasks, session events), what it queues for
//! sessions and protocol handlers, and what it reports to the user.
use vstd::prelude::*;
use crate::multiaddr::{bytes_copy, Multiaddr};
use crate::types::{Priority, ProtocolId, SessionId, SessionType, TargetProtocol, TargetSession, WaitTask};

verus! {

/// The authenticated identity of a remote peer: its public key and the peer
/// id derived from that key by the handshake.
#[derive(Debug)]
pub struct PublicKey {
    pub key: Vec<u8>,
    pub peer_id: Vec<u8>,
}

impl View for PublicKey {
    type V = (Seq<u8>, Seq<u8>);

    open spec fn view(&self) -> (Seq<u8>, Seq<u8>) {
        (self.key@, self.peer_id@)
    }
}

impl Clone for PublicKey {
    fn clone(&self) -> (r: Self)
        ensures
            r@ == self@,
    {
        PublicKey { key: bytes_copy(&self.key), peer_id: bytes_copy(&self.peer_id) }
    }
}

/// The view of an optional public key.
pub open spec fn key_view(k: Option<PublicKey>) -> Option<(Seq<u8>, Seq<u8>)> {
    match k {
        Some(k) => Some(k@),
        None => None,
    }
}

/// Descriptor of an open session, handed to the user with each session event.
#[derive(Debug)]
pub struct SessionContext {
    pub id: SessionId,
    pub address: Multiaddr,
    pub ty: SessionType,
    pub remote_pubkey: Option<PublicKey>,
}

impl SessionContext {
    /// A copy of this descriptor.
    pub fn copy(&self) -> (r: SessionContext)
        ensures
            r.id == self.id,
            r.ty == self.ty,
            r.address@ == self.address@,
            key_view(r.remote_pubkey) == key_view(self.remote_pubkey),
    {
        let remote_pubkey = match &self.remote_pubkey {
            Some(k) => Some(k.clone()),
            None => None,
        };
        SessionContext { id: self.id, address: self.address.clone(), ty: self.ty, remote_pubkey }
    }
}

/// A request from the user, through the control handle.
#[derive(Debug)]
pub enum ServiceTask {
    /// Send `data` on protocol `proto_id` to the target sessions.
    ProtocolMessage { target: TargetSession, proto_id: ProtocolId, data: bytes::Bytes },
    /// Dial an address, then open the target protocols on the new session.
    Dial { address: Multiaddr, target: TargetProtocol },
    /// Listen on an address.
    Listen { address: Multiaddr },
    /// Close a session gracefully.
    Disconnect { session_id: SessionId },
    /// Start a notify timer, every `interval_ms`, on a service-level handler.
    SetProtocolNotify { proto_id: ProtocolId, interval_ms: u64, token: u64 },
    /// Stop a notify timer of a service-level handler.
    RemoveProtocolNotify { proto_id: ProtocolId, token: u64 },
    /// Start a notify timer on the handler of one session and protocol.
    SetProtocolSessionNotify {
        session_id: SessionId,
        proto_id: ProtocolId,
        interval_ms: u64,
        token: u64,
    },
    /// Stop a notify timer of the handler of one session and protocol.
    RemoveProtocolSessionNotify { session_id: SessionId, proto_id: ProtocolId, token: u64 },
    /// Open protocols on a session.
    ProtocolOpen { session_id: SessionId, target: TargetProtocol },
    /// Close a protocol on a session.
    ProtocolClose { session_id: SessionId, proto_id: ProtocolId },
    /// Shut the service down; `true` does not wait for sessions to drain.
    Shutdown(bool),
}

/// An event reported to the service by a session, a handshake, a dial or a
/// listen attempt, or a protocol handler.
#[derive(Debug)]
pub enum SessionEvent {
    /// The session has closed.
    SessionClose { id: SessionId },
    /// A handshake completed; the authenticated connection is waiting.
    HandshakeSuccess {
        public_key: Option<PublicKey>,
        address: Multiaddr,
        ty: SessionType,
        listen_address: Option<Multiaddr>,
    },
    /// A handshake failed.
    HandshakeError { ty: SessionType, address: Multiaddr, error: String },
    /// A protocol substream opened.
    ProtocolOpen { id: SessionId, proto_id: ProtocolId, version: String },
    /// A message arrived on a protocol substream.
    ProtocolMessage { id: SessionId, proto_id: ProtocolId, data: bytes::Bytes },
    /// A protocol substream closed.
    ProtocolClose { id: SessionId, proto_id: ProtocolId },
    /// Protocol selection failed on a substream.
    ProtocolSelectError { id: SessionId, proto_name: Option<String> },
    /// A codec or I/O error on a substream.
    ProtocolError { id: SessionId, proto_id: ProtocolId, error: String },
    /// A dial failed in the transport.
    DialError { address: Multiaddr, error: String },
    /// A listen attempt failed, or a listener stopped.
    ListenError { address: Multiaddr, error: String },
    /// A listener is bound.
    ListenStart { listen_address: Multiaddr },
    /// The session stayed without an open substream for too long.
    SessionTimeout { id: SessionId },
    /// The multiplexer failed.
    MuxerError { id: SessionId, error: String },
    /// A protocol handler is blocked or has died.
    ProtocolHandleError { proto_id: ProtocolId, error: ProtocolHandleErrorKind },
}

/// What the service queues for one session.
#[derive(Debug)]
pub enum SessionCommand {
    ProtocolMessage { proto_id: ProtocolId, data: bytes::Bytes },
    ProtocolOpen { proto_id: ProtocolId },
    ProtocolClose { proto_id: ProtocolId },
    SessionClose,
}

/// What the service queues for a service-level protocol handler.
#[derive(Debug)]
pub enum ServiceProtocolEvent {
    Init,
    Update { listen_addrs: Vec<Multiaddr> },
    SetNotify { interval_ms: u64, token: u64 },
    RemoveNotify { token: u64 },
}

/// What the service queues for the handler of one session and protocol.
#[derive(Debug)]
pub enum SessionProtocolEvent {
    Update { listen_addrs: Vec<Multiaddr> },
    SetNotify { interval_ms: u64, token: u64 },
    RemoveNotify { token: u64 },
}

/// Why a protocol handler failed.
#[derive(Clone, Copy, Debug, PartialEq, Eq, Structural)]
pub enum ProtocolHandleErrorKind {
    /// Its queue is full; `Some` names the session of a session-level handler.
    Block(Option<SessionId>),
    /// It is gone; `Some` names the session of a session-level handler.
    AbnormallyClosed(Option<SessionId>),
}

/// Failures on the dialing side.
#[derive(Debug)]
pub enum DialerErrorKind {
    /// The peer already has a session, the one named.
    RepeatedConnection(SessionId),
    /// The address names another peer than the one that answered.
    PeerIdNotMatch,
    HandshakeError(String),
    TransportError(String),
}

/// Failures on the listening side.
#[derive(Debug)]
pub enum ListenErrorKind {
    /// The peer already has a session, the one named.
    RepeatedConnection(SessionId),
    TransportError(String),
}

/// An error reported to the user.
#[derive(Debug)]
pub enum ServiceError {
    DialerError { address: Multiaddr, error: DialerErrorKind },
    ListenError { address: Multiaddr, error: ListenErrorKind },
    ProtocolSelectError { proto_name: Option<String>, session_context: SessionContext },
    ProtocolError { id: SessionId, proto_id: ProtocolId, error: String },
    SessionTimeout { session_context: SessionContext },
    MuxerError { session_context: SessionContext, error: String },
    ProtocolHandleError { proto_id: ProtocolId, error: ProtocolHandleErrorKind },
    SessionBlocked { session_context: SessionContext },
}

/// A session or listen event reported to the user.
#[derive(Debug)]
pub enum ServiceEvent {
    SessionOpen { session_context: SessionContext },
    SessionClose { session_context: SessionContext },
    ListenStarted { address: Multiaddr },
    ListenClose { address: Multiaddr },
}

/// A protocol event for the user's service handle, for the protocols that ask
/// for them.
#[derive(Debug)]
pub enum ProtocolEvent {
    Connected { session_context: SessionContext, proto_id: ProtocolId, version: String },
    Received { session_context: SessionContext, proto_id: ProtocolId, data: bytes::Bytes },
    Disconnected { proto_id: ProtocolId, session_context: SessionContext },
}

/// What one step of the service asks the runtime around it to do.
#[derive(Debug)]
pub enum Output {
    /// Call the user's `handle_error`.
    Error(ServiceError),
    /// Call the user's `handle_event`.
    Event(ServiceEvent),
    /// Call the user's `handle_proto`.
    Proto(ProtocolEvent),
    /// Start a transport dial to the address, then an outbound handshake.
    Dial { address: Multiaddr },
    /// Start a transport listen on the address.
    Listen { address: Multiaddr },
    /// Start accepting connections on a bound listener.
    SpawnListener { address: Multiaddr },
    /// Shut the socket of the connection just handshaken; it is refused.
    RejectConnection,
    /// Run a session over the connection just handshaken: `handles` are the
    /// protocols whose session-level handler was created for it, `open` those
    /// to open right away.
    StartSession { context: SessionContext, handles: Vec<ProtocolId>, open: Vec<ProtocolId> },
    /// Start the service-level handler of a protocol.
    StartServiceHandle { proto_id: ProtocolId },
    /// Hand a queued item to a session.
    ToSession { id: SessionId, priority: Priority, command: SessionCommand },
    /// Hand a queued item to a service-level handler.
    ToServiceHandle { proto_id: ProtocolId, event: ServiceProtocolEvent },
    /// Hand a queued item to a session-level handler.
    ToSessionHandle { id: SessionId, proto_id: ProtocolId, event: SessionProtocolEvent },
    /// Drop every background task not yet started.
    ClearFutureTasks,
    /// Close the receivers of user tasks and session events.
    CloseReceivers,
    /// Start the runner of background tasks.
    StartFutureTasks,
    /// Send the one-shot cancel to a task the service waits for.
    Cancel { task: WaitTask },
}

} // verus!
