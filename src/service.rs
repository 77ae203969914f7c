//! The service event loop's state and every decision it takes: opening and
//! closing sessions, routing messages, starting dials and listens, flushing
//! the queues that carry backpressure, and shutting down.
use vstd::prelude::*;
use vstd::set_lib::lemma_len_subset;
use crate::buffer::{send_outcome, Buffer, SendResult};
use crate::event::{
    key_view, DialerErrorKind, ListenErrorKind, Output, ProtocolEvent, ProtocolHandleErrorKind,
    PublicKey, ServiceError, ServiceEvent, ServiceProtocolEvent, ServiceTask, SessionCommand,
    SessionContext, SessionEvent, SessionProtocolEvent,
};
use crate::payload::bytes_content;
use crate::multiaddr::{bytes_equal, peer_id_of, AddrPart, Multiaddr, P2P_CODE, bytes_copy};
use crate::state::State;
use crate::types::{Priority, ProtocolId, SessionId, SessionType, Source, TargetProtocol, TargetSession, WaitTask};

verus! {

broadcast use vstd::seq_lib::group_seq_properties, vstd::set::group_set_axioms;

/// Capacity of the queue of user tasks.
pub const RECEIVED_BUFFER_SIZE: usize = 2048;
/// Capacity of the queue of session events, and of each handler's queue.
pub const RECEIVED_SIZE: usize = 512;
/// Capacity of each session's queue, and of the background-task queue.
pub const SEND_SIZE: usize = 512;

/// How a protocol is handled.
#[derive(Clone, Copy, Debug, PartialEq, Eq, Structural)]
pub enum ProtocolHandle {
    /// No handler.
    Empty,
    /// A callback handler.
    Callback,
    /// A handler that takes over the read half of the substream.
    Spawn,
    /// A callback handler and a spawned reader.
    Both,
}

impl ProtocolHandle {
    pub open spec fn spec_has_callback(&self) -> bool {
        *self == ProtocolHandle::Callback || *self == ProtocolHandle::Both
    }

    /// Whether a callback handler is to be instantiated.
    pub fn has_callback(&self) -> (r: bool)
        ensures
            r == self.spec_has_callback(),
    {
        match self {
            ProtocolHandle::Callback | ProtocolHandle::Both => true,
            _ => false,
        }
    }
}

/// Configuration of one protocol.
#[derive(Debug)]
pub struct ProtocolMeta {
    pub id: ProtocolId,
    pub name: String,
    /// The service-level handler.
    pub service_handle: ProtocolHandle,
    /// The session-level handler, one per session.
    pub session_handle: ProtocolHandle,
}

/// Limits and options of the service.
#[derive(Debug)]
pub struct ServiceConfig {
    /// Most sessions plus attempts in flight.
    pub max_connection_number: usize,
    /// Most items queued for all sessions together before user tasks wait.
    pub send_event_size: usize,
    /// Most items queued for the handlers of one class before session events wait.
    pub recv_event_size: usize,
    /// Protocols whose events go to the user's `handle_proto`.
    pub event: Vec<ProtocolId>,
    /// Longest frame on the wire.
    pub max_frame_length: usize,
    /// Largest receive window of one multiplexed stream.
    pub max_stream_window_size: u32,
}

/// The service's side of one open session: its descriptor and the items
/// queued for it.
#[derive(Debug)]
pub struct SessionController {
    pub context: SessionContext,
    pub buffer: Buffer<(Priority, SessionCommand)>,
}

/// The service event loop's state.
pub struct Service {
    protocol_configs: Vec<ProtocolMeta>,
    sessions: Vec<SessionController>,
    listens: Vec<Multiaddr>,
    context_listens: Vec<Multiaddr>,
    dial_protocols: Vec<(Multiaddr, TargetProtocol)>,
    config: ServiceConfig,
    state: State,
    next_session: SessionId,
    service_proto_handles: Vec<(ProtocolId, Buffer<ServiceProtocolEvent>)>,
    session_proto_handles: Vec<(SessionId, ProtocolId, Buffer<SessionProtocolEvent>)>,
    initialized: bool,
    shutdown: bool,
    waiting: Vec<(WaitTask, bool)>,
}

/// Number of session ids.
pub open spec fn id_space() -> int {
    0x1_0000_0000
}

/// The ids of a sequence of sessions, in order.
pub open spec fn ids_of(s: Seq<SessionController>) -> Seq<SessionId> {
    s.map_values(|c: SessionController| c.context.id)
}

/// Whether a session of `s` has id `id`.
pub open spec fn has_id(s: Seq<SessionController>, id: SessionId) -> bool {
    exists|i: int| 0 <= i < s.len() && s[i].context.id == id
}

/// The key part of an optional public key.
pub open spec fn key_of(c: SessionController) -> Option<Seq<u8>> {
    match c.context.remote_pubkey {
        Some(k) => Some(k.key@),
        None => None,
    }
}

/// Whether some session of `s` has the public key `key`.
pub open spec fn has_key(s: Seq<SessionController>, key: Seq<u8>) -> bool {
    exists|i: int| 0 <= i < s.len() && key_of(s[i]) == Some(key)
}

/// Ids of `s` are unique.
pub open spec fn ids_unique(s: Seq<SessionController>) -> bool {
    forall|i: int, j: int|
        0 <= i < s.len() && 0 <= j < s.len() && i != j ==> s[i].context.id != s[j].context.id
}

/// No two sessions of `s` share a public key.
pub open spec fn keys_unique(s: Seq<SessionController>) -> bool {
    forall|i: int, j: int|
        0 <= i < s.len() && 0 <= j < s.len() && i != j && key_of(s[i]).is_some() ==> key_of(
            s[i],
        ) != key_of(s[j])
}

/// Every session-level handler record names an open session, and no two name
/// the same session and protocol.
pub open spec fn handles_keyed(
    s: Seq<SessionController>,
    h: Seq<(SessionId, ProtocolId, Buffer<SessionProtocolEvent>)>,
) -> bool {
    &&& forall|k: int| 0 <= k < h.len() ==> has_id(s, #[trigger] h[k].0)
    &&& forall|k: int, l: int|
        0 <= k < h.len() && 0 <= l < h.len() && k != l ==> (h[k].0, h[k].1) != (h[l].0, h[l].1)
}

/// The id probed `j` steps after `start`, with wrap-around.
pub open spec fn probe_at(start: int, j: int) -> SessionId {
    ((start + j) % id_space()) as SessionId
}

/// The first free id after `start`, probing upward with wrap-around: `r` is
/// `start + d` for some `d >= 1`, and every id probed before it is taken.
pub open spec fn first_free_after(ids: Set<SessionId>, start: SessionId, r: SessionId) -> bool {
    &&& !ids.contains(r)
    &&& exists|d: int|
        #![trigger probe_at(start as int, d)]
        1 <= d <= id_space() && r == probe_at(start as int, d) && forall|j: int|
            1 <= j < d ==> ids.contains(#[trigger] probe_at(start as int, j))
}

/// Sum of a sequence of lengths.
pub open spec fn total(lens: Seq<nat>) -> nat
    decreases lens.len(),
{
    if lens.len() == 0 {
        0
    } else {
        total(lens.drop_last()) + lens.last()
    }
}

/// Lengths of the session queues.
pub open spec fn session_queue_lens(s: Seq<SessionController>) -> Seq<nat> {
    s.map_values(|c: SessionController| c.buffer@.len())
}

/// Lengths of the service-level handler queues.
pub open spec fn service_handle_lens(h: Seq<(ProtocolId, Buffer<ServiceProtocolEvent>)>) -> Seq<nat> {
    h.map_values(|x: (ProtocolId, Buffer<ServiceProtocolEvent>)| x.1@.len())
}

/// Lengths of the session-level handler queues.
pub open spec fn session_handle_lens(h: Seq<(SessionId, ProtocolId, Buffer<SessionProtocolEvent>)>) -> Seq<nat> {
    h.map_values(|x: (SessionId, ProtocolId, Buffer<SessionProtocolEvent>)| x.2@.len())
}

proof fn lemma_total_step(lens: Seq<nat>, i: int)
    requires
        0 <= i < lens.len(),
    ensures
        total(lens.take(i + 1)) == total(lens.take(i)) + lens[i],
{
    assert(lens.take(i + 1).drop_last() =~= lens.take(i));
}

impl Service {
    pub closed spec fn sessions(&self) -> Seq<SessionController> {
        self.sessions@
    }

    pub closed spec fn session_handles(&self) -> Seq<
        (SessionId, ProtocolId, Buffer<SessionProtocolEvent>),
    > {
        self.session_proto_handles@
    }

    pub closed spec fn service_handles(&self) -> Seq<(ProtocolId, Buffer<ServiceProtocolEvent>)> {
        self.service_proto_handles@
    }

    pub closed spec fn state(&self) -> State {
        self.state
    }

    pub closed spec fn is_shut_down(&self) -> bool {
        self.shutdown
    }

    pub closed spec fn next_id(&self) -> SessionId {
        self.next_session
    }

    pub closed spec fn listen_addrs(&self) -> Seq<Seq<(u32, Seq<u8>)>> {
        self.listens@.map_values(|a: Multiaddr| a@)
    }

    pub closed spec fn max_connections(&self) -> usize {
        self.config.max_connection_number
    }

    pub closed spec fn send_limit(&self) -> usize {
        self.config.send_event_size
    }

    pub closed spec fn recv_limit(&self) -> usize {
        self.config.recv_event_size
    }

    /// The ids of the open sessions.
    pub open spec fn session_ids(&self) -> Set<SessionId> {
        ids_of(self.sessions()).to_set()
    }

    pub open spec fn has_session(&self, id: SessionId) -> bool {
        has_id(self.sessions(), id)
    }

    /// The state's invariant.
    pub closed spec fn wf(&self) -> bool {
        &&& self.sessions@.len() < u32::MAX
        &&& protocol_ids_unique(self.protocol_configs@)
        &&& forall|k: int, l: int|
            0 <= k < self.dial_protocols@.len() && 0 <= l < self.dial_protocols@.len() && k != l
                ==> self.dial_protocols@[k].0@ != self.dial_protocols@[l].0@
        &&& ids_unique(self.sessions@)
        &&& keys_unique(self.sessions@)
        &&& handles_keyed(self.sessions@, self.session_proto_handles@)
        &&& !self.initialized ==> self.service_proto_handles@.len() == 0
        &&& forall|k: int, l: int|
            0 <= k < self.listens@.len() && 0 <= l < self.listens@.len() && k != l
                ==> self.listens@[k]@ != self.listens@[l]@
        &&& forall|k: int, l: int|
            0 <= k < self.service_proto_handles@.len() && 0 <= l
                < self.service_proto_handles@.len() && k != l
                ==> self.service_proto_handles@[k].0 != self.service_proto_handles@[l].0
    }

    proof fn lemma_ids(&self)
        ensures
            forall|id: SessionId| self.session_ids().contains(id) <==> self.has_session(id),
            ids_of(self.sessions()).len() == self.sessions().len(),
    {
        assert forall|id: SessionId| self.session_ids().contains(id) <==> self.has_session(id) by {
            if self.session_ids().contains(id) {
                let i = choose|i: int|
                    0 <= i < ids_of(self.sessions()).len() && ids_of(self.sessions())[i] == id;
                assert(self.sessions()[i].context.id == id);
            }
            if self.has_session(id) {
                let i = choose|i: int|
                    0 <= i < self.sessions().len() && self.sessions()[i].context.id == id;
                assert(ids_of(self.sessions())[i] == id);
            }
        }
    }

    /// The index of the session with id `id`, if it is open.
    fn find_session(&self, id: SessionId) -> (r: Option<usize>)
        ensures
            r.is_some() ==> r.unwrap() < self.sessions@.len() && self.sessions@[r.unwrap() as int].context.id
                == id,
            r.is_none() ==> !has_id(self.sessions@, id),
    {
        let mut i: usize = 0;
        while i < self.sessions.len()
            invariant
                0 <= i <= self.sessions@.len(),
                forall|j: int| 0 <= j < i ==> self.sessions@[j].context.id != id,
            decreases self.sessions@.len() - i,
        {
            if self.sessions[i].context.id == id {
                return Some(i);
            }
            i = i + 1;
        }
        None
    }

    /// Moves `next_session` to the first id after it, with wrap-around, that
    /// no open session holds, and returns it.
    fn generate_next_session(&mut self) -> (r: SessionId)
        requires
            old(self).wf(),
        ensures
            first_free_after(old(self).session_ids(), old(self).next_id(), r),
            *final(self) == (Service { next_session: r, ..*old(self) }),
    {
        proof {
            self.lemma_ids();
        }
        let ghost ids = self.session_ids();
        let ghost start_id = self.next_session;
        let ghost start = self.next_session as int;
        let mut probe: SessionId = self.next_session;
        let mut k: usize = 0;
        loop
            invariant
                *self == *old(self),
                start_id == old(self).next_session,
                self.wf(),
                ids == self.session_ids(),
                start == start_id as int,
                0 <= start < id_space(),
                forall|id: SessionId| ids.contains(id) <==> self.has_session(id),
                ids_of(self.sessions()).len() == self.sessions().len(),
                k <= self.sessions@.len(),
                probe as int == (start + k) % id_space(),
                forall|j: int| 1 <= j <= k ==> ids.contains(#[trigger] probe_at(start, j)),
            decreases self.sessions@.len() - k,
        {
            probe = probe.wrapping_add(1);
            assert(probe as int == (start + k + 1) % id_space());
            if self.find_session(probe).is_none() {
                proof {
                    assert(!ids.contains(probe));
                    let d = k + 1;
                    assert(1 <= d <= id_space() && probe == probe_at(start, d) && forall|j: int|
                        1 <= j < d ==> ids.contains(#[trigger] probe_at(start, j)));
                    assert(probe_at(start_id as int, d) == probe);
                    assert(first_free_after(ids, start_id, probe));
                }
                self.next_session = probe;
                return probe;
            }
            proof {
                lemma_probe_bound(ids_of(self.sessions()), start, (k + 1) as int);
            }
            k = k + 1;
        }
    }
}

/// The distinct ids `start + 1 .. start + k` (with wrap-around) all being
/// taken by sessions of `ids` means that there are at least `k` of them.
proof fn lemma_probe_bound(ids: Seq<SessionId>, start: int, k: int)
    requires
        0 <= start < id_space(),
        0 <= k < id_space(),
        forall|j: int| 1 <= j <= k ==> ids.to_set().contains(#[trigger] probe_at(start, j)),
    ensures
        k <= ids.len(),
{
    let probed = Seq::new(k as nat, |j: int| ((start + j + 1) % id_space()) as SessionId);
    assert(probed.no_duplicates()) by {
        assert forall|a: int, b: int| 0 <= a < probed.len() && 0 <= b < probed.len() && a != b
            implies probed[a] != probed[b] by {
            assert((start + a + 1) % id_space() != (start + b + 1) % id_space());
        }
    }
    probed.unique_seq_to_set();
    assert(probed.to_set().subset_of(ids.to_set())) by {
        assert forall|x: SessionId| probed.to_set().contains(x) implies ids.to_set().contains(x) by {
            let j = choose|j: int| 0 <= j < probed.len() && probed[j] == x;
            assert(probe_at(start, j + 1) == x);
        }
    }
    lemma_len_subset(probed.to_set(), ids.to_set());
    ids.lemma_cardinality_of_set();
}


/// Whether a session-level handler record survives the closing of session
/// `id` (of all its protocols when `proto` is `None`, else of that one).
pub open spec fn handle_kept(
    h: (SessionId, ProtocolId, Buffer<SessionProtocolEvent>),
    id: SessionId,
    proto: Option<ProtocolId>,
) -> bool {
    h.0 != id || (proto.is_some() && h.1 != proto.unwrap())
}

/// The records of `h` that survive the closing of `id` (and `proto`).
pub open spec fn handles_after_close(
    h: Seq<(SessionId, ProtocolId, Buffer<SessionProtocolEvent>)>,
    id: SessionId,
    proto: Option<ProtocolId>,
) -> Seq<(SessionId, ProtocolId, Buffer<SessionProtocolEvent>)> {
    h.filter(kept_by(id, proto))
}

/// `handle_kept` as a predicate on records.
pub open spec fn kept_by(id: SessionId, proto: Option<ProtocolId>) -> spec_fn(
    (SessionId, ProtocolId, Buffer<SessionProtocolEvent>),
) -> bool {
    |x: (SessionId, ProtocolId, Buffer<SessionProtocolEvent>)| handle_kept(x, id, proto)
}

/// `after` is `before` with more outputs appended.
pub open spec fn extends(before: Seq<Output>, after: Seq<Output>) -> bool {
    before.len() <= after.len() && after.take(before.len() as int) == before
}

/// The outputs appended to `before` to give `after`.
pub open spec fn added(before: Seq<Output>, after: Seq<Output>) -> Seq<Output> {
    after.skip(before.len() as int)
}

/// Whether `o` reports to the user that session `id` closed.
pub open spec fn is_session_close(o: Output, id: SessionId) -> bool {
    match o {
        Output::Event(ServiceEvent::SessionClose { session_context }) => session_context.id == id,
        _ => false,
    }
}

/// Two session descriptors agree: same id, direction, address and key.
pub open spec fn same_context(a: SessionContext, b: SessionContext) -> bool {
    &&& a.id == b.id
    &&& a.ty == b.ty
    &&& a.address@ == b.address@
    &&& key_view(a.remote_pubkey) == key_view(b.remote_pubkey)
}

/// Whether `o` reports to the user that the session described by `c` opened.
pub open spec fn is_session_open(o: Output, c: SessionContext) -> bool {
    match o {
        Output::Event(ServiceEvent::SessionOpen { session_context }) => same_context(session_context, c),
        _ => false,
    }
}

/// How many outputs of `s` report that session `id` closed.
pub open spec fn count_session_close(s: Seq<Output>, id: SessionId) -> nat
    decreases s.len(),
{
    if s.len() == 0 {
        0
    } else {
        count_session_close(s.drop_last(), id) + if is_session_close(s.last(), id) {
            1nat
        } else {
            0nat
        }
    }
}

/// Removes the session-level handler records of session `id` (of protocol
/// `proto` only, when given), keeping the order of the others.
fn retain_handles(
    v: &mut Vec<(SessionId, ProtocolId, Buffer<SessionProtocolEvent>)>,
    id: SessionId,
    proto: Option<ProtocolId>,
)
    ensures
        final(v)@ == handles_after_close(old(v)@, id, proto),
{
    let n = v.len();
    let ghost orig = v@;
    let ghost pred = kept_by(id, proto);
    let mut rest: Vec<(SessionId, ProtocolId, Buffer<SessionProtocolEvent>)> = Vec::new();
    std::mem::swap(v, &mut rest);
    assert(orig.take(0).filter(pred) =~= Seq::empty()) by {
        reveal(Seq::filter);
    }
    assert(rest@ =~= orig.skip(0));
    let mut consumed: usize = 0;
    while rest.len() > 0
        invariant
            pred == kept_by(id, proto),
            orig.len() == n,
            consumed + rest@.len() == orig.len(),
            rest@ == orig.skip(consumed as int),
            v@ == orig.take(consumed as int).filter(pred),
        decreases rest@.len(),
    {
        let x = rest.remove(0);
        let ghost prefix = orig.take(consumed as int);
        assert(orig.take(consumed as int + 1) =~= prefix.push(x));
        assert(prefix.push(x).drop_last() =~= prefix);
        let keep = x.0 != id || match proto {
            Some(p) => x.1 != p,
            None => false,
        };
        proof {
            reveal(Seq::filter);
            assert(x == orig[consumed as int]);
            assert(keep == pred(x));
            if keep {
                assert(prefix.push(x).filter(pred) == prefix.filter(pred).push(x));
            } else {
                assert(prefix.push(x).filter(pred) == prefix.filter(pred));
            }
        }
        if keep {
            v.push(x);
        }
        consumed = consumed + 1;
        assert(rest@ =~= orig.skip(consumed as int));
    }
    assert(orig.take(consumed as int) =~= orig);
}

impl Service {
    /// The session-level handler records that survive the closing of `id`
    /// name open sessions once `id` is gone.
    proof fn lemma_handles_after_close(
        s: Seq<SessionController>,
        h: Seq<(SessionId, ProtocolId, Buffer<SessionProtocolEvent>)>,
        i: int,
    )
        requires
            0 <= i < s.len(),
            handles_keyed(s, h),
        ensures
            handles_keyed(s.remove(i), handles_after_close(h, s[i].context.id, None)),
    {
        let id = s[i].context.id;
        let pred = kept_by(id, None);
        let f = h.filter(pred);
        h.filter_lemma(pred);
        assert forall|k: int| 0 <= k < f.len() implies has_id(s.remove(i), #[trigger] f[k].0) by {
            assert(f.contains(f[k]));
            h.lemma_filter_contains_rev(pred, f[k]);
            let kk = choose|kk: int| 0 <= kk < h.len() && h[kk] == f[k];
            assert(pred(f[k]));
            assert(has_id(s, h[kk].0));
            let j = choose|j: int| 0 <= j < s.len() && s[j].context.id == h[kk].0;
            assert(j != i);
            if j < i {
                assert(s.remove(i)[j] == s[j]);
            } else {
                assert(s.remove(i)[j - 1] == s[j]);
            }
        }
        lemma_filter_unique_pairs(h, pred);
    }

    /// Closes session `id`.  From the user (`External`), a close is queued for
    /// the session at high priority and the session drains first.  From the
    /// session itself (`Internal`), its handler records and the session are
    /// removed, and the user is told once.
    fn session_close(&mut self, id: SessionId, source: Source, out: &mut Vec<Output>)
        requires
            old(self).wf(),
        ensures
            final(self).wf(),
            session_close_post(*old(self), id, source, *final(self), old(out)@, final(out)@),
    {
        let found = self.find_session(id);
        if source == Source::External {
            if let Some(i) = found {
                let mut control = self.sessions.remove(i);
                control.buffer.push((Priority::High, SessionCommand::SessionClose));
                self.sessions.insert(i, control);
                proof {
                    assert forall|j: int|
                        0 <= j < old(self).sessions@.len() && old(self).sessions@[j].context.id == id
                        implies j == i by {}
                    lemma_same_contexts(old(self).sessions@, self.sessions@, self.session_proto_handles@);
                }
            }
            return;
        }
        retain_handles(&mut self.session_proto_handles, id, None);
        if let Some(i) = found {
            proof {
                Self::lemma_handles_after_close(self.sessions@, old(self).session_proto_handles@, i as int);
            }
            let control = self.sessions.remove(i);
            out.push(Output::Event(ServiceEvent::SessionClose { session_context: control.context }));
        } else {
            proof {
                let pred = kept_by(id, None);
                let h = old(self).session_proto_handles@;
                assert forall|k: int| 0 <= k < h.len() implies pred(#[trigger] h[k]) by {
                    assert(has_id(old(self).sessions@, h[k].0));
                }
                lemma_filter_all(h, pred);
            }
        }
    }
}


/// Keys (session, protocol) of `h` are pairwise distinct.
pub open spec fn pairs_unique(h: Seq<(SessionId, ProtocolId, Buffer<SessionProtocolEvent>)>) -> bool {
    forall|k: int, l: int|
        0 <= k < h.len() && 0 <= l < h.len() && k != l ==> (h[k].0, h[k].1) != (h[l].0, h[l].1)
}

proof fn lemma_filter_unique_pairs(
    h: Seq<(SessionId, ProtocolId, Buffer<SessionProtocolEvent>)>,
    pred: spec_fn((SessionId, ProtocolId, Buffer<SessionProtocolEvent>)) -> bool,
)
    requires
        pairs_unique(h),
    ensures
        pairs_unique(h.filter(pred)),
    decreases h.len(),
{
    reveal(Seq::filter);
    if h.len() > 0 {
        let init = h.drop_last();
        assert(pairs_unique(init)) by {
            assert forall|k: int, l: int|
                0 <= k < init.len() && 0 <= l < init.len() && k != l implies (init[k].0, init[k].1)
                != (init[l].0, init[l].1) by {
                assert(init[k] == h[k] && init[l] == h[l]);
            }
        }
        lemma_filter_unique_pairs(init, pred);
        let f = init.filter(pred);
        init.filter_lemma(pred);
        if pred(h.last()) {
            assert forall|k: int| 0 <= k < f.len() implies (f[k].0, f[k].1) != (h.last().0, h.last().1) by {
                assert(f.contains(f[k]));
                init.lemma_filter_contains_rev(pred, f[k]);
                let kk = choose|kk: int| 0 <= kk < init.len() && init[kk] == f[k];
                assert(h[kk] == init[kk]);
                assert(kk != h.len() - 1);
            }
            let g = f.push(h.last());
            assert forall|k: int, l: int|
                0 <= k < g.len() && 0 <= l < g.len() && k != l implies (g[k].0, g[k].1) != (g[l].0, g[l].1) by {
                if k < f.len() && l < f.len() {
                    assert(g[k] == f[k] && g[l] == f[l]);
                } else if k < f.len() {
                    assert(g[k] == f[k]);
                } else {
                    assert(g[l] == f[l]);
                }
            }
        }
    }
}

/// Filtering by a predicate that holds of every element changes nothing.
proof fn lemma_filter_all<A>(h: Seq<A>, pred: spec_fn(A) -> bool)
    requires
        forall|k: int| 0 <= k < h.len() ==> pred(#[trigger] h[k]),
    ensures
        h.filter(pred) == h,
    decreases h.len(),
{
    reveal(Seq::filter);
    if h.len() > 0 {
        let init = h.drop_last();
        assert forall|k: int| 0 <= k < init.len() implies pred(#[trigger] init[k]) by {
            assert(init[k] == h[k]);
        }
        lemma_filter_all(init, pred);
        assert(h.last() == h[h.len() - 1]);
        assert(init.push(h.last()) =~= h);
    }
}

/// What closing session `id` from `source` does to the service `s`, giving
/// `t`, and to the outputs.
pub open spec fn session_close_post(
    s: Service,
    id: SessionId,
    source: Source,
    t: Service,
    before: Seq<Output>,
    after: Seq<Output>,
) -> bool {
    &&& s.unchanged_but_sessions(&t)
    &&& if source == Source::External {
        &&& after == before
        &&& t.session_handles() == s.session_handles()
        &&& t.sessions().len() == s.sessions().len()
        &&& forall|j: int|
            0 <= j < s.sessions().len() && s.sessions()[j].context.id != id ==> t.sessions()[j]
                == s.sessions()[j]
        &&& forall|j: int|
            0 <= j < s.sessions().len() && s.sessions()[j].context.id == id ==> {
                &&& t.sessions()[j].context == s.sessions()[j].context
                &&& t.sessions()[j].buffer@ == s.sessions()[j].buffer@.push(
                    (Priority::High, SessionCommand::SessionClose),
                )
            }
    } else {
        &&& t.session_handles() == handles_after_close(s.session_handles(), id, None)
        &&& !t.has_session(id)
        &&& if s.has_session(id) {
            exists|i: int|
                0 <= i < s.sessions().len() && s.sessions()[i].context.id == id && t.sessions()
                    == s.sessions().remove(i) && after == before.push(
                    Output::Event(ServiceEvent::SessionClose { session_context: s.sessions()[i].context }),
                )
        } else {
            t.sessions() == s.sessions() && after == before
        }
    }
}

impl Service {
    /// Everything but the sessions and the session-level handler records is
    /// the same in `self` and `t`.
    pub closed spec fn unchanged_but_sessions(&self, t: &Service) -> bool {
        &&& self.protocol_configs == t.protocol_configs
        &&& self.listens == t.listens
        &&& self.context_listens == t.context_listens
        &&& self.dial_protocols == t.dial_protocols
        &&& self.config == t.config
        &&& self.state == t.state
        &&& self.next_session == t.next_session
        &&& self.service_proto_handles == t.service_proto_handles
        &&& self.initialized == t.initialized
        &&& self.shutdown == t.shutdown
        &&& self.waiting == t.waiting
    }
}


/// Two sequences of sessions with the same descriptors, in the same order,
/// have the same ids and keys.
proof fn lemma_same_contexts(
    s: Seq<SessionController>,
    t: Seq<SessionController>,
    h: Seq<(SessionId, ProtocolId, Buffer<SessionProtocolEvent>)>,
)
    requires
        s.len() == t.len(),
        forall|j: int| 0 <= j < s.len() ==> #[trigger] t[j].context == s[j].context,
    ensures
        ids_unique(s) == ids_unique(t),
        keys_unique(s) == keys_unique(t),
        forall|x: SessionId| has_id(s, x) == has_id(t, x),
        handles_keyed(s, h) == handles_keyed(t, h),
{
    assert forall|x: SessionId| has_id(s, x) == has_id(t, x) by {
        if has_id(s, x) {
            let j = choose|j: int| 0 <= j < s.len() && s[j].context.id == x;
            assert(t[j].context == s[j].context);
        }
        if has_id(t, x) {
            let j = choose|j: int| 0 <= j < t.len() && t[j].context.id == x;
            assert(t[j].context == s[j].context);
        }
    }
    assert forall|j: int| 0 <= j < s.len() implies key_of(t[j]) == key_of(s[j]) by {
        assert(t[j].context == s[j].context);
    }
}

/// Protocol ids of the registry are unique.
pub open spec fn protocol_ids_unique(p: Seq<ProtocolMeta>) -> bool {
    forall|k: int, l: int| 0 <= k < p.len() && 0 <= l < p.len() && k != l ==> p[k].id != p[l].id
}

/// Whether protocol `id` is registered.
pub open spec fn registered(p: Seq<ProtocolMeta>, id: ProtocolId) -> bool {
    exists|k: int| 0 <= k < p.len() && p[k].id == id
}

/// The ids of the registered protocols, in order.
pub open spec fn protocol_ids(p: Seq<ProtocolMeta>) -> Seq<ProtocolId> {
    p.map_values(|m: ProtocolMeta| m.id)
}

/// The handler of `m` at the service level or at the session level.
pub open spec fn handle_of(m: ProtocolMeta, service_level: bool) -> ProtocolHandle {
    if service_level {
        m.service_handle
    } else {
        m.session_handle
    }
}

/// The ids of the protocols with a callback handler at the given level, in
/// order.
pub open spec fn callback_ids(p: Seq<ProtocolMeta>, service_level: bool) -> Seq<ProtocolId>
    decreases p.len(),
{
    if p.len() == 0 {
        Seq::empty()
    } else if handle_of(p.last(), service_level).spec_has_callback() {
        callback_ids(p.drop_last(), service_level).push(p.last().id)
    } else {
        callback_ids(p.drop_last(), service_level)
    }
}

/// The ids of the protocols with a session-level callback handler, in order.
pub open spec fn session_callback_ids(p: Seq<ProtocolMeta>) -> Seq<ProtocolId> {
    callback_ids(p, false)
}

/// The protocols that `target` names and that are registered, in order.
pub open spec fn target_ids(p: Seq<ProtocolMeta>, target: TargetProtocol) -> Seq<ProtocolId> {
    match target {
        TargetProtocol::All => protocol_ids(p),
        TargetProtocol::Single(id) => if registered(p, id) {
            seq![id]
        } else {
            Seq::empty()
        },
        TargetProtocol::Multi(ids) => ids@.filter(|id: ProtocolId| registered(p, id)),
    }
}

/// The remote key duplicates that of an open session.
pub open spec fn is_duplicate(s: Seq<SessionController>, key: Option<PublicKey>) -> bool {
    key.is_some() && has_key(s, key.unwrap().key@)
}

/// The address names a peer other than the one whose key was presented.
pub open spec fn is_peer_mismatch(key: Option<PublicKey>, address: Seq<(u32, Seq<u8>)>) -> bool {
    key.is_some() && peer_id_of(address).is_some() && peer_id_of(address).unwrap()
        != key.unwrap().peer_id@
}

/// The address a new session is recorded with: the given one, with the
/// peer id of the key appended when it names none.
pub open spec fn session_address(key: Option<PublicKey>, address: Seq<(u32, Seq<u8>)>) -> Seq<
    (u32, Seq<u8>),
> {
    if key.is_some() && peer_id_of(address).is_none() {
        address.push((P2P_CODE, key.unwrap().peer_id@))
    } else {
        address
    }
}

/// The address a refused inbound connection is reported under: the listen
/// address it came in on, or its remote address when that is unknown.
pub open spec fn listen_report_address(
    listen: Option<Multiaddr>,
    address: Seq<(u32, Seq<u8>)>,
) -> Seq<(u32, Seq<u8>)> {
    match listen {
        Some(l) => l@,
        None => address,
    }
}

/// `o` reports a repeated connection to the session `existing`, on the
/// side that `ty` names: dialing `address`, or listening on
/// `listen_report_address(listen, address)`.
pub open spec fn is_repeated_connection(
    o: Output,
    existing: SessionId,
    ty: SessionType,
    address: Seq<(u32, Seq<u8>)>,
    listen: Option<Multiaddr>,
) -> bool {
    match o {
        Output::Error(ServiceError::DialerError { error: DialerErrorKind::RepeatedConnection(e), address: a }) =>
            ty == SessionType::Outbound && e == existing && a@ == address,
        Output::Error(ServiceError::ListenError { error: ListenErrorKind::RepeatedConnection(e), address: a }) =>
            ty == SessionType::Inbound && e == existing && a@ == listen_report_address(listen, address),
        _ => false,
    }
}

/// `o` reports that `address` names another peer.
pub open spec fn is_peer_id_not_match(o: Output, address: Seq<(u32, Seq<u8>)>) -> bool {
    match o {
        Output::Error(ServiceError::DialerError { error: DialerErrorKind::PeerIdNotMatch, address: a }) => a@ == address,
        _ => false,
    }
}

/// `o` asks to run the session described by `c` with the given handlers and
/// protocols to open.
pub open spec fn is_start_session(
    o: Output,
    c: SessionContext,
    handles: Seq<ProtocolId>,
    open: Seq<ProtocolId>,
) -> bool {
    match o {
        Output::StartSession { context, handles: h, open: op } => same_context(context, c) && h@ == handles
            && op@ == open,
        _ => false,
    }
}

/// What the decision on a handshaken connection (`key`, `address`, `ty`,
/// accepted on `listen` when inbound) does to the service `s`, giving `t`,
/// and to the outputs.
pub open spec fn session_open_post(
    s: Service,
    key: Option<PublicKey>,
    address: Seq<(u32, Seq<u8>)>,
    ty: SessionType,
    listen: Option<Multiaddr>,
    t: Service,
    before: Seq<Output>,
    after: Seq<Output>,
) -> bool {
    let new = added(before, after);
    &&& extends(before, after)
    &&& s.same_run_state(&t)
    &&& !t.dialing(address)
    &&& forall|b: Seq<(u32, Seq<u8>)>| b != address ==> t.dialing(b) == s.dialing(b)
    &&& if is_duplicate(s.sessions(), key) || is_peer_mismatch(key, address) {
        &&& t.sessions() == s.sessions()
        &&& t.session_handles() == s.session_handles()
        &&& t.next_id() == s.next_id()
        &&& new.len() == 2
        &&& new[0] is RejectConnection
        &&& if is_duplicate(s.sessions(), key) {
            exists|i: int|
                0 <= i < s.sessions().len() && key_of(s.sessions()[i]) == Some(key.unwrap().key@)
                    && is_repeated_connection(new[1], s.sessions()[i].context.id, ty, address, listen)
        } else {
            is_peer_id_not_match(new[1], address)
        }
    } else {
        let id = t.next_id();
        let handles = session_callback_ids(s.protocols());
        let open = if ty == SessionType::Outbound {
            target_ids(s.protocols(), s.dial_target(address))
        } else {
            Seq::empty()
        };
        &&& first_free_after(s.session_ids(), s.next_id(), id)
        &&& t.sessions().len() == s.sessions().len() + 1
        &&& t.sessions().drop_last() == s.sessions()
        &&& t.sessions().last().context.id == id
        &&& t.sessions().last().context.ty == ty
        &&& key_view(t.sessions().last().context.remote_pubkey) == key_view(key)
        &&& t.sessions().last().context.address@ == session_address(key, address)
        &&& t.sessions().last().buffer@.len() == 0
        &&& t.session_handles().len() == s.session_handles().len() + handles.len()
        &&& t.session_handles().take(s.session_handles().len() as int) == s.session_handles()
        &&& forall|k: int|
            0 <= k < handles.len() ==> {
                let h = #[trigger] t.session_handles()[s.session_handles().len() + k];
                h.0 == id && h.1 == handles[k] && h.2@.len() == 0
            }
        &&& new.len() == 2
        &&& is_start_session(new[0], t.sessions().last().context, handles, open)
        &&& is_session_open(new[1], t.sessions().last().context)
    }
}

proof fn lemma_callback_ids(p: Seq<ProtocolMeta>, service_level: bool)
    requires
        protocol_ids_unique(p),
    ensures
        callback_ids(p, service_level).no_duplicates(),
        forall|k: int|
            0 <= k < callback_ids(p, service_level).len() ==> registered(p, #[trigger] callback_ids(p, service_level)[k]),
    decreases p.len(),
{
    if p.len() > 0 {
        let init = p.drop_last();
        assert(protocol_ids_unique(init)) by {
            assert forall|k: int, l: int| 0 <= k < init.len() && 0 <= l < init.len() && k != l
                implies init[k].id != init[l].id by {
                assert(init[k] == p[k] && init[l] == p[l]);
            }
        }
        lemma_callback_ids(init, service_level);
        let r = callback_ids(init, service_level);
        assert forall|k: int| 0 <= k < r.len() implies registered(p, #[trigger] r[k]) by {
            let j = choose|j: int| 0 <= j < init.len() && init[j].id == r[k];
            assert(p[j] == init[j]);
        }
        if handle_of(p.last(), service_level).spec_has_callback() {
            assert forall|k: int| 0 <= k < r.len() implies r[k] != p.last().id by {
                let j = choose|j: int| 0 <= j < init.len() && init[j].id == r[k];
                assert(p[j] == init[j]);
                assert(j != p.len() - 1);
            }
            let rr = r.push(p.last().id);
            assert forall|k: int| 0 <= k < rr.len() implies registered(p, #[trigger] rr[k]) by {
                if k < r.len() {
                    assert(rr[k] == r[k]);
                } else {
                    assert(p[p.len() - 1].id == rr[k]);
                }
            }
        }
    }
}

impl Service {
    pub closed spec fn protocols(&self) -> Seq<ProtocolMeta> {
        self.protocol_configs@
    }

    /// The dials in flight with the protocols each will open.
    pub closed spec fn dials(&self) -> Seq<(Multiaddr, TargetProtocol)> {
        self.dial_protocols@
    }

    /// Whether a dial to `a` is in flight.
    pub closed spec fn dialing(&self, a: Seq<(u32, Seq<u8>)>) -> bool {
        exists|i: int| 0 <= i < self.dial_protocols@.len() && self.dial_protocols@[i].0@ == a
    }

    /// The protocols to open on a session dialed to `a`.
    pub closed spec fn dial_target(&self, a: Seq<(u32, Seq<u8>)>) -> TargetProtocol {
        if self.dialing(a) {
            let i = choose|i: int| 0 <= i < self.dial_protocols@.len() && self.dial_protocols@[i].0@ == a;
            self.dial_protocols@[i].1
        } else {
            TargetProtocol::All
        }
    }

    /// Listens, the run state, the limits and the shutdown flag are the same.
    pub closed spec fn same_run_state(&self, t: &Service) -> bool {
        &&& self.protocol_configs == t.protocol_configs
        &&& self.listens == t.listens
        &&& self.context_listens == t.context_listens
        &&& self.config == t.config
        &&& self.state == t.state
        &&& self.service_proto_handles == t.service_proto_handles
        &&& self.initialized == t.initialized
        &&& self.shutdown == t.shutdown
        &&& self.waiting == t.waiting
    }

    /// Removes the dial record of `address` and returns its target, or
    /// `All` when there is none.
    fn take_dial_target(&mut self, address: &Multiaddr) -> (r: TargetProtocol)
        requires
            old(self).wf(),
        ensures
            final(self).wf(),
            r == old(self).dial_target(address@),
            !final(self).dialing(address@),
            forall|b: Seq<(u32, Seq<u8>)>| b != address@ ==> final(self).dialing(b) == old(self).dialing(b),
            old(self).same_run_state(&*final(self)),
            final(self).sessions@ == old(self).sessions@,
            final(self).session_proto_handles@ == old(self).session_proto_handles@,
            final(self).next_session == old(self).next_session,
    {
        let mut i: usize = 0;
        while i < self.dial_protocols.len()
            invariant
                *self == *old(self),
                old(self).wf(),
                0 <= i <= self.dial_protocols@.len(),
                forall|j: int| 0 <= j < i ==> self.dial_protocols@[j].0@ != address@,
            decreases self.dial_protocols@.len() - i,
        {
            if self.dial_protocols[i].0.same_as(address) {
                let ghost old_d = self.dial_protocols@;
                let (_, target) = self.dial_protocols.remove(i);
                proof {
                    assert(old(self).dial_target(address@) == old_d[i as int].1) by {
                        let k = choose|k: int| 0 <= k < old_d.len() && old_d[k].0@ == address@;
                        assert(k == i);
                    }
                    assert forall|b: Seq<(u32, Seq<u8>)>| b != address@ implies self.dialing(b) == old(self).dialing(b) by {
                        if old(self).dialing(b) {
                            let k = choose|k: int| 0 <= k < old_d.len() && old_d[k].0@ == b;
                            if k < i {
                                assert(self.dial_protocols@[k] == old_d[k]);
                            } else {
                                assert(self.dial_protocols@[k - 1] == old_d[k]);
                            }
                        }
                        if self.dialing(b) {
                            let k = choose|k: int| 0 <= k < self.dial_protocols@.len() && self.dial_protocols@[k].0@ == b;
                            if k < i {
                                assert(self.dial_protocols@[k] == old_d[k]);
                            } else {
                                assert(self.dial_protocols@[k] == old_d[k + 1]);
                            }
                        }
                    }
                    assert(!self.dialing(address@)) by {
                        if self.dialing(address@) {
                            let k = choose|k: int| 0 <= k < self.dial_protocols@.len() && self.dial_protocols@[k].0@ == address@;
                            if k < i {
                                assert(self.dial_protocols@[k] == old_d[k]);
                            } else {
                                assert(self.dial_protocols@[k] == old_d[k + 1]);
                            }
                        }
                    }
                }
                return target;
            }
            i = i + 1;
        }
        TargetProtocol::All
    }

    /// The index of an open session whose remote key is `key`.
    fn find_key(&self, key: &Vec<u8>) -> (r: Option<usize>)
        ensures
            r.is_some() ==> r.unwrap() < self.sessions@.len() && key_of(self.sessions@[r.unwrap() as int])
                == Some(key@),
            r.is_none() ==> !has_key(self.sessions@, key@),
    {
        let mut i: usize = 0;
        while i < self.sessions.len()
            invariant
                0 <= i <= self.sessions@.len(),
                forall|j: int| 0 <= j < i ==> key_of(self.sessions@[j]) != Some(key@),
            decreases self.sessions@.len() - i,
        {
            if let Some(k) = &self.sessions[i].context.remote_pubkey {
                if bytes_equal(&k.key, key) {
                    return Some(i);
                }
            }
            i = i + 1;
        }
        None
    }

    /// Creates the session-level handler records of session `id`, one per
    /// protocol with a session-level callback handler, and returns their
    /// protocols; creates nothing when `id` is not an open session.
    fn session_handles_open(&mut self, id: SessionId) -> (r: Vec<ProtocolId>)
        ensures
            !has_id(old(self).sessions@, id) ==> r@.len() == 0 && *final(self) == *old(self),
            has_id(old(self).sessions@, id) ==> r@ == session_callback_ids(old(self).protocol_configs@),
            final(self).session_proto_handles@.len() == old(self).session_proto_handles@.len() + r@.len(),
            final(self).session_proto_handles@.take(old(self).session_proto_handles@.len() as int)
                == old(self).session_proto_handles@,
            forall|k: int|
                0 <= k < r@.len() ==> {
                    let h = #[trigger] final(self).session_proto_handles@[old(self).session_proto_handles@.len() + k];
                    h.0 == id && h.1 == r@[k] && h.2@.len() == 0
                },
            *final(self) == (Service { session_proto_handles: final(self).session_proto_handles, ..*old(self) }),
    {
        let mut handles: Vec<ProtocolId> = Vec::new();
        if self.find_session(id).is_none() {
            return handles;
        }
        let mut i: usize = 0;
        let ghost base = self.session_proto_handles@.len();
        while i < self.protocol_configs.len()
            invariant
                *self == (Service { session_proto_handles: self.session_proto_handles, ..*old(self) }),
                0 <= i <= self.protocol_configs@.len(),
                base == old(self).session_proto_handles@.len(),
                handles@ == session_callback_ids(self.protocol_configs@.take(i as int)),
                self.session_proto_handles@.len() == base + handles@.len(),
                self.session_proto_handles@.take(base as int) == old(self).session_proto_handles@,
                forall|k: int|
                    0 <= k < handles@.len() ==> {
                        let h = #[trigger] self.session_proto_handles@[base + k];
                        h.0 == id && h.1 == handles@[k] && h.2@.len() == 0
                    },
            decreases self.protocol_configs@.len() - i,
        {
            let ghost pre = self.protocol_configs@.take(i as int);
            assert(self.protocol_configs@.take(i as int + 1).drop_last() =~= pre);
            let meta = &self.protocol_configs[i];
            if meta.session_handle.has_callback() {
                let pid = meta.id;
                self.session_proto_handles.push((id, pid, Buffer::new()));
                handles.push(pid);
                assert(self.session_proto_handles@.take(base as int) =~= old(self).session_proto_handles@);
            }
            i = i + 1;
        }
        assert(self.protocol_configs@.take(i as int) =~= self.protocol_configs@);
        handles
    }
}

impl Service {
    /// Whether protocol `id` is registered.
    fn is_registered(&self, id: ProtocolId) -> (r: bool)
        ensures
            r == registered(self.protocol_configs@, id),
    {
        let mut i: usize = 0;
        while i < self.protocol_configs.len()
            invariant
                0 <= i <= self.protocol_configs@.len(),
                forall|j: int| 0 <= j < i ==> self.protocol_configs@[j].id != id,
            decreases self.protocol_configs@.len() - i,
        {
            if self.protocol_configs[i].id == id {
                return true;
            }
            i = i + 1;
        }
        false
    }

    /// The registered protocols that `target` names, in order.
    fn target_protocols(&self, target: &TargetProtocol) -> (r: Vec<ProtocolId>)
        ensures
            r@ == target_ids(self.protocol_configs@, *target),
    {
        match target {
            TargetProtocol::All => {
                let mut r: Vec<ProtocolId> = Vec::new();
                let mut i: usize = 0;
                while i < self.protocol_configs.len()
                    invariant
                        0 <= i <= self.protocol_configs@.len(),
                        r@ == protocol_ids(self.protocol_configs@).take(i as int),
                    decreases self.protocol_configs@.len() - i,
                {
                    r.push(self.protocol_configs[i].id);
                    i = i + 1;
                    assert(r@ =~= protocol_ids(self.protocol_configs@).take(i as int));
                }
                assert(protocol_ids(self.protocol_configs@).take(i as int) =~= protocol_ids(
                    self.protocol_configs@,
                ));
                r
            },
            TargetProtocol::Single(id) => {
                let mut r: Vec<ProtocolId> = Vec::new();
                if self.is_registered(*id) {
                    r.push(*id);
                    assert(r@ =~= seq![*id]);
                }
                r
            },
            TargetProtocol::Multi(ids) => {
                let ghost pred = |id: ProtocolId| registered(self.protocol_configs@, id);
                let mut r: Vec<ProtocolId> = Vec::new();
                let mut i: usize = 0;
                proof {
                    reveal(Seq::filter);
                    assert(ids@.take(0).filter(pred) =~= Seq::<ProtocolId>::empty());
                }
                while i < ids.len()
                    invariant
                        pred == (|id: ProtocolId| registered(self.protocol_configs@, id)),
                        0 <= i <= ids@.len(),
                        r@ == ids@.take(i as int).filter(pred),
                    decreases ids@.len() - i,
                {
                    let id = ids[i];
                    let keep = self.is_registered(id);
                    proof {
                        reveal(Seq::filter);
                        let prefix = ids@.take(i as int);
                        assert(ids@.take(i as int + 1) =~= prefix.push(id));
                        assert(prefix.push(id).drop_last() =~= prefix);
                        assert(keep == pred(id));
                    }
                    if keep {
                        r.push(id);
                    }
                    i = i + 1;
                }
                assert(ids@.take(i as int) =~= ids@);
                r
            },
        }
    }

    /// Decides on a connection whose handshake succeeded: refuses it when
    /// its key is that of an open session or its address names another
    /// peer; otherwise opens a session under a fresh id, creates its
    /// session-level handler records, and asks for the session to run.
    fn session_open(
        &mut self,
        public_key: Option<PublicKey>,
        address: Multiaddr,
        ty: SessionType,
        listen_addr: Option<Multiaddr>,
        out: &mut Vec<Output>,
    )
        requires
            old(self).wf(),
            old(self).sessions@.len() + 1 < u32::MAX,
        ensures
            final(self).wf(),
            session_open_post(*old(self), public_key, address@, ty, listen_addr, *final(self), old(out)@, final(out)@),
    {
        let ghost key0 = public_key;
        let ghost addr0 = address@;
        let ghost listen0 = listen_addr;
        let ghost s0 = *self;
        let ghost out0 = out@;
        let target = self.take_dial_target(&address);
        let ghost s1 = *self;
        let mut address = address;
        if let Some(key) = &public_key {
            match self.find_key(&key.key) {
                Some(i) => {
                    let existing = self.sessions[i].context.id;
                    out.push(Output::RejectConnection);
                    if ty.is_outbound() {
                        out.push(
                            Output::Error(
                                ServiceError::DialerError {
                                    error: DialerErrorKind::RepeatedConnection(existing),
                                    address,
                                },
                            ),
                        );
                    } else {
                        let listen = match listen_addr {
                            Some(a) => a,
                            None => address,
                        };
                        out.push(
                            Output::Error(
                                ServiceError::ListenError {
                                    error: ListenErrorKind::RepeatedConnection(existing),
                                    address: listen,
                                },
                            ),
                        );
                    }
                    proof {
                        let new = added(out0, out@);
                        assert(out@.take(out0.len() as int) =~= out0);
                        assert(new[0] == out@[out0.len() as int]);
                        assert(new[1] == out@[out0.len() + 1int]);
                        assert(key_of(self.sessions@[i as int]) == Some(key0.unwrap().key@));
                        assert(is_repeated_connection(new[1], self.sessions@[i as int].context.id, ty, addr0, listen0));
                    }
                    return ;
                },
                None => {
                    match address.peer_id() {
                        Some(peer) => {
                            if !bytes_equal(&peer, &key.peer_id) {
                                out.push(Output::RejectConnection);
                                out.push(
                                    Output::Error(
                                        ServiceError::DialerError {
                                            error: DialerErrorKind::PeerIdNotMatch,
                                            address,
                                        },
                                    ),
                                );
                                proof {
                                    let new = added(out0, out@);
                                    assert(out@.take(out0.len() as int) =~= out0);
                                    assert(new[0] == out@[out0.len() as int]);
                                    assert(new[1] == out@[out0.len() + 1int]);
                                    assert(is_peer_mismatch(key0, addr0));
                                }
                                return ;
                            }
                        },
                        None => {
                            address.push(AddrPart { code: P2P_CODE, value: bytes_copy(&key.peer_id) });
                        },
                    }
                },
            }
        }
        assert(address@ == session_address(key0, addr0));
        let ghost pre = *self;
        proof {
            pre.lemma_ids();
        }
        let id = self.generate_next_session();
        assert(!pre.session_ids().contains(id));
        assert(!pre.has_session(id));
        assert(pre.sessions@ == s1.sessions@);
        let context = SessionContext { id, address, ty, remote_pubkey: public_key };
        let event_context = context.copy();
        let start_context = context.copy();
        self.sessions.push(SessionController { context, buffer: Buffer::new() });
        let handles = self.session_handles_open(id);
        proof {
            lemma_callback_ids(self.protocol_configs@, false);
            let ss = self.sessions@;
            let old_s = s1.sessions@;
            assert(ss == old_s.push(ss.last()));
            assert(!has_id(old_s, id));
            assert(ids_unique(ss)) by {
                assert forall|i: int, j: int| 0 <= i < ss.len() && 0 <= j < ss.len() && i != j
                    implies ss[i].context.id != ss[j].context.id by {
                    if i < old_s.len() && j < old_s.len() {
                        assert(ss[i] == old_s[i] && ss[j] == old_s[j]);
                    } else if i < old_s.len() {
                        assert(ss[i] == old_s[i]);
                    } else {
                        assert(ss[j] == old_s[j]);
                    }
                }
            }
            assert(keys_unique(ss)) by {
                assert forall|i: int, j: int|
                    0 <= i < ss.len() && 0 <= j < ss.len() && i != j && key_of(ss[i]).is_some()
                    implies key_of(ss[i]) != key_of(ss[j]) by {
                    if i < old_s.len() && j < old_s.len() {
                        assert(ss[i] == old_s[i] && ss[j] == old_s[j]);
                    } else if i < old_s.len() {
                        assert(ss[i] == old_s[i]);
                    } else {
                        assert(ss[j] == old_s[j]);
                    }
                }
            }
            let h = self.session_proto_handles@;
            let base = s1.session_proto_handles@.len();
            let cb = session_callback_ids(self.protocol_configs@);
            assert forall|k: int| 0 <= k < base implies #[trigger] h[k] == s1.session_proto_handles@[k] by {
                assert(h.take(base as int)[k] == h[k]);
            }
            assert(handles_keyed(ss, h)) by {
                assert forall|k: int| 0 <= k < h.len() implies has_id(ss, #[trigger] h[k].0) by {
                    if k < base {
                        assert(h[k] == s1.session_proto_handles@[k]);
                        assert(has_id(old_s, s1.session_proto_handles@[k].0));
                        let j = choose|j: int| 0 <= j < old_s.len() && old_s[j].context.id == h[k].0;
                        assert(ss[j] == old_s[j]);
                    } else {
                        assert(h[base + (k - base)].0 == id);
                        assert(ss[ss.len() - 1].context.id == id);
                    }
                }
                assert forall|k: int, l: int| 0 <= k < h.len() && 0 <= l < h.len() && k != l
                    implies (h[k].0, h[k].1) != (h[l].0, h[l].1) by {
                    if k < base && l < base {
                        assert(h[k] == s1.session_proto_handles@[k]);
                        assert(h[l] == s1.session_proto_handles@[l]);
                    } else if k < base {
                        assert(h[k] == s1.session_proto_handles@[k]);
                        assert(has_id(old_s, s1.session_proto_handles@[k].0));
                        assert(h[base + (l - base)].0 == id);
                    } else if l < base {
                        assert(h[l] == s1.session_proto_handles@[l]);
                        assert(has_id(old_s, s1.session_proto_handles@[l].0));
                        assert(h[base + (k - base)].0 == id);
                    } else {
                        assert(h[base + (k - base)].1 == cb[k - base]);
                        assert(h[base + (l - base)].1 == cb[l - base]);
                    }
                }
            }
        }
        let open = if ty.is_outbound() {
            self.target_protocols(&target)
        } else {
            Vec::new()
        };
        out.push(Output::StartSession { context: start_context, handles, open });
        out.push(Output::Event(ServiceEvent::SessionOpen { session_context: event_context }));
        proof {
            let t = *self;
            let new = added(out0, out@);
            assert(out@.take(out0.len() as int) =~= out0);
            assert(new[0] == out@[out0.len() as int]);
            assert(new[1] == out@[out0.len() + 1int]);
            assert(extends(out0, out@));
            assert(s0.same_run_state(&t));
            assert(!t.dialing(addr0));
            assert(!(is_duplicate(s0.sessions(), key0) || is_peer_mismatch(key0, addr0)));
            assert(first_free_after(s0.session_ids(), s0.next_id(), t.next_id()));
            assert(t.sessions().drop_last() =~= s0.sessions());
            assert(key_view(t.sessions().last().context.remote_pubkey) == key_view(key0));
            assert(t.sessions().last().context.address@ == session_address(key0, addr0));
            assert(s0.dial_target(addr0) == target);
            assert(t.dial_protocols == s1.dial_protocols);
            assert forall|b: Seq<(u32, Seq<u8>)>| b != addr0 implies t.dialing(b) == s0.dialing(b) by {
                assert(t.dialing(b) == s1.dialing(b));
            }
            assert(t.sessions().len() == s0.sessions().len() + 1);
            assert(t.sessions().last().context.id == t.next_id());
            assert(t.sessions().last().context.ty == ty);
            assert(t.sessions().last().buffer@.len() == 0);
            assert(t.session_handles().len() == s0.session_handles().len() + session_callback_ids(s0.protocols()).len());
            assert(t.session_handles().take(s0.session_handles().len() as int) == s0.session_handles());
            assert(new.len() == 2);
            assert(is_session_open(new[1], t.sessions().last().context));
            assert(is_start_session(new[0], t.sessions().last().context, session_callback_ids(s0.protocols()), if ty == SessionType::Outbound {
            target_ids(s0.protocols(), s0.dial_target(addr0))
        } else {
            Seq::empty()
        }));
        }
    }
}

/// How many times `id` occurs in `s`.
pub open spec fn occurrences(s: Seq<SessionId>, id: SessionId) -> nat
    decreases s.len(),
{
    if s.len() == 0 {
        0
    } else {
        occurrences(s.drop_last(), id) + if s.last() == id {
            1nat
        } else {
            0nat
        }
    }
}

/// How many copies of a message for `target` session `id` receives.
pub open spec fn copies_for(target: TargetSession, id: SessionId) -> nat {
    match target {
        TargetSession::All => 1,
        TargetSession::Single(x) => if x == id {
            1
        } else {
            0
        },
        TargetSession::Multi(ids) => occurrences(ids@, id),
    }
}

/// `item` is a message on `proto_id` at `priority` holding `content`.
pub open spec fn is_message(
    item: (Priority, SessionCommand),
    priority: Priority,
    proto_id: ProtocolId,
    content: Seq<u8>,
) -> bool {
    item.0 == priority && match item.1 {
        SessionCommand::ProtocolMessage { proto_id: p, data } => p == proto_id && bytes_content(data)
            == content,
        _ => false,
    }
}

/// The queue of `b` is that of `a` with `count` messages on `proto_id` at
/// `priority` holding `content` appended; the descriptor is the same.
pub open spec fn queue_gained(
    a: SessionController,
    b: SessionController,
    count: nat,
    priority: Priority,
    proto_id: ProtocolId,
    content: Seq<u8>,
) -> bool {
    &&& b.context == a.context
    &&& b.buffer@.len() == a.buffer@.len() + count
    &&& b.buffer@.take(a.buffer@.len() as int) == a.buffer@
    &&& forall|k: int|
        a.buffer@.len() <= k < b.buffer@.len() ==> is_message(
            #[trigger] b.buffer@[k],
            priority,
            proto_id,
            content,
        )
}

/// What routing a message does to the sessions `s`, giving `t`: each
/// session's queue gains one copy per time the target names it.
pub open spec fn message_post(
    s: Seq<SessionController>,
    t: Seq<SessionController>,
    target: TargetSession,
    priority: Priority,
    proto_id: ProtocolId,
    content: Seq<u8>,
) -> bool {
    &&& t.len() == s.len()
    &&& forall|j: int|
        0 <= j < s.len() ==> queue_gained(
            s[j],
            #[trigger] t[j],
            copies_for(target, s[j].context.id),
            priority,
            proto_id,
            content,
        )
}

proof fn lemma_queue_gained_push(
    a: SessionController,
    b: SessionController,
    c: SessionController,
    count: nat,
    item: (Priority, SessionCommand),
    priority: Priority,
    proto_id: ProtocolId,
    content: Seq<u8>,
)
    requires
        queue_gained(a, b, count, priority, proto_id, content),
        c.context == b.context,
        c.buffer@ == b.buffer@.push(item),
        is_message(item, priority, proto_id, content),
    ensures
        queue_gained(a, c, count + 1, priority, proto_id, content),
{
    assert(c.buffer@.take(a.buffer@.len() as int) =~= b.buffer@.take(a.buffer@.len() as int));
    assert forall|k: int| a.buffer@.len() <= k < c.buffer@.len() implies is_message(
        #[trigger] c.buffer@[k],
        priority,
        proto_id,
        content,
    ) by {
        if k < b.buffer@.len() {
            assert(c.buffer@[k] == b.buffer@[k]);
        }
    }
}

proof fn lemma_queue_gained_none(a: SessionController, priority: Priority, proto_id: ProtocolId, content: Seq<u8>)
    ensures
        queue_gained(a, a, 0, priority, proto_id, content),
{
    assert(a.buffer@.take(a.buffer@.len() as int) =~= a.buffer@);
}

/// The outputs of handing session `c`'s queue to its channel.
pub open spec fn to_session_outputs(id: SessionId, sent: Seq<(Priority, SessionCommand)>) -> Seq<Output> {
    sent.map_values(
        |it: (Priority, SessionCommand)| Output::ToSession { id, priority: it.0, command: it.1 },
    )
}

/// `o` reports that session `id` is blocked.
pub open spec fn is_session_blocked(o: Output, id: SessionId) -> bool {
    match o {
        Output::Error(ServiceError::SessionBlocked { session_context }) => session_context.id == id,
        _ => false,
    }
}

/// The outputs `new` of flushing the queue of session `c`: the items handed
/// over, in order, then a report if the session is blocked.
pub open spec fn session_flush_outputs(
    c: SessionController,
    capacity: nat,
    connected: bool,
    new: Seq<Output>,
) -> bool {
    let o = send_outcome(c.buffer@, capacity, connected);
    &&& new.take(o.1.len() as int) == to_session_outputs(c.context.id, o.1)
    &&& if o.0 == SendResult::Pending {
        new.len() == o.1.len() + 1 && is_session_blocked(new.last(), c.context.id)
    } else {
        new.len() == o.1.len()
    }
}

impl Service {
    /// Appends `item` to the queue of the session at index `j`.
    fn push_to_session(&mut self, j: usize, item: (Priority, SessionCommand))
        requires
            old(self).wf(),
            j < old(self).sessions@.len(),
        ensures
            final(self).wf(),
            final(self).sessions@.len() == old(self).sessions@.len(),
            final(self).sessions@[j as int].context == old(self).sessions@[j as int].context,
            final(self).sessions@[j as int].buffer@ == old(self).sessions@[j as int].buffer@.push(item),
            forall|k: int| 0 <= k < old(self).sessions@.len() && k != j ==> final(self).sessions@[k] == old(self).sessions@[k],
            *final(self) == (Service { sessions: final(self).sessions, ..*old(self) }),
    {
        let mut control = self.sessions.remove(j);
        control.buffer.push(item);
        self.sessions.insert(j, control);
        proof {
            lemma_same_contexts(old(self).sessions@, self.sessions@, self.session_proto_handles@);
        }
    }

    /// Queues `data` on protocol `proto_id` for the sessions that `target`
    /// names, one copy per time it names an open session.
    fn handle_message(
        &mut self,
        target: TargetSession,
        proto_id: ProtocolId,
        priority: Priority,
        data: bytes::Bytes,
    )
        requires
            old(self).wf(),
        ensures
            final(self).wf(),
            message_post(old(self).sessions(), final(self).sessions(), target, priority, proto_id, bytes_content(data)),
            *final(self) == (Service { sessions: final(self).sessions, ..*old(self) }),
    {
        let ghost s0 = self.sessions@;
        let ghost content = bytes_content(data);
        let ghost t0 = target;
        match target {
            TargetSession::Single(id) => {
                proof {
                    assert forall|jj: int| 0 <= jj < s0.len() implies queue_gained(s0[jj], #[trigger] s0[jj], 0, priority, proto_id, content) by {
                        lemma_queue_gained_none(s0[jj], priority, proto_id, content);
                    }
                }
                if let Some(j) = self.find_session(id) {
                    let item = (priority, SessionCommand::ProtocolMessage { proto_id, data });
                    self.push_to_session(j, item);
                    proof {
                        lemma_queue_gained_push(s0[j as int], s0[j as int], self.sessions@[j as int], 0, item, priority, proto_id, content);
                        assert forall|jj: int| 0 <= jj < s0.len() implies queue_gained(s0[jj], #[trigger] self.sessions@[jj], copies_for(t0, s0[jj].context.id), priority, proto_id, content) by {
                            if jj != j {
                                assert(s0[jj].context.id != id);
                            }
                        }
                    }
                }
            },
            TargetSession::Multi(ids) => {
                let mut i: usize = 0;
                proof {
                    assert forall|jj: int| 0 <= jj < s0.len() implies queue_gained(s0[jj], #[trigger] s0[jj], occurrences(ids@.take(0), s0[jj].context.id), priority, proto_id, content) by {
                        lemma_queue_gained_none(s0[jj], priority, proto_id, content);
                        assert(ids@.take(0).len() == 0);
                    }
                }
                while i < ids.len()
                    invariant
                        self.wf(),
                        *self == (Service { sessions: self.sessions, ..*old(self) }),
                        0 <= i <= ids@.len(),
                        bytes_content(data) == content,
                        self.sessions@.len() == s0.len(),
                        forall|jj: int| 0 <= jj < s0.len() ==> queue_gained(s0[jj], #[trigger] self.sessions@[jj], occurrences(ids@.take(i as int), s0[jj].context.id), priority, proto_id, content),
                    decreases ids@.len() - i,
                {
                    let id = ids[i];
                    let ghost pre = ids@.take(i as int);
                    assert(ids@.take(i as int + 1) =~= pre.push(id));
                    assert(pre.push(id).drop_last() =~= pre);
                    let ghost s1 = self.sessions@;
                    if let Some(j) = self.find_session(id) {
                        let item = (priority, SessionCommand::ProtocolMessage { proto_id, data: data.clone() });
                        self.push_to_session(j, item);
                        proof {
                            lemma_queue_gained_push(s0[j as int], s1[j as int], self.sessions@[j as int], occurrences(pre, id), item, priority, proto_id, content);
                            assert forall|jj: int| 0 <= jj < s0.len() implies queue_gained(s0[jj], #[trigger] self.sessions@[jj], occurrences(ids@.take(i + 1), s0[jj].context.id), priority, proto_id, content) by {
                                if jj != j {
                                    assert(s1[jj].context.id != id);
                                    assert(s1[jj] == self.sessions@[jj]);
                                    assert(queue_gained(s0[jj], s1[jj], occurrences(pre, s0[jj].context.id), priority, proto_id, content));
                                }
                            }
                        }
                    } else {
                        proof {
                            assert forall|jj: int| 0 <= jj < s0.len() implies queue_gained(s0[jj], #[trigger] self.sessions@[jj], occurrences(ids@.take(i + 1), s0[jj].context.id), priority, proto_id, content) by {
                                assert(queue_gained(s0[jj], s1[jj], occurrences(pre, s0[jj].context.id), priority, proto_id, content));
                                assert(s1[jj].context.id != id);
                            }
                        }
                    }
                    i = i + 1;
                }
                assert(ids@.take(i as int) =~= ids@);
            },
            TargetSession::All => {
                let mut j: usize = 0;
                while j < self.sessions.len()
                    invariant
                        self.wf(),
                        *self == (Service { sessions: self.sessions, ..*old(self) }),
                        0 <= j <= s0.len(),
                        bytes_content(data) == content,
                        self.sessions@.len() == s0.len(),
                        forall|jj: int| 0 <= jj < s0.len() ==> queue_gained(s0[jj], #[trigger] self.sessions@[jj], if jj < j { 1nat } else { 0nat }, priority, proto_id, content),
                    decreases s0.len() - j,
                {
                    let ghost s1 = self.sessions@;
                    let item = (priority, SessionCommand::ProtocolMessage { proto_id, data: data.clone() });
                    self.push_to_session(j, item);
                    proof {
                        lemma_queue_gained_push(s0[j as int], s1[j as int], self.sessions@[j as int], 0, item, priority, proto_id, content);
                        assert forall|jj: int| 0 <= jj < s0.len() implies queue_gained(s0[jj], #[trigger] self.sessions@[jj], if jj < j + 1 { 1nat } else { 0nat }, priority, proto_id, content) by {
                            if jj != j {
                                assert(s1[jj] == self.sessions@[jj]);
                            }
                        }
                    }
                    j = j + 1;
                }
            },
        }
    }
}


/// Appends one `ToSession` output per item of `sent`, in order.
fn emit_to_session(id: SessionId, sent: Vec<(Priority, SessionCommand)>, out: &mut Vec<Output>)
    ensures
        final(out)@ == old(out)@ + to_session_outputs(id, sent@),
{
    let ghost all = sent@;
    let mut rest = sent;
    let ghost mut i: int = 0;
    while rest.len() > 0
        invariant
            0 <= i,
            i + rest@.len() == all.len(),
            rest@ == all.skip(i),
            out@ == old(out)@ + to_session_outputs(id, all.take(i)),
        decreases rest@.len(),
    {
        let (priority, command) = rest.remove(0);
        out.push(Output::ToSession { id, priority, command });
        proof {
            assert(all[i] == (priority, command));
            assert(to_session_outputs(id, all.take(i + 1)) =~= to_session_outputs(id, all.take(i)).push(
                Output::ToSession { id, priority, command },
            ));
        }
        proof {
            i = i + 1;
        }
        assert(rest@ =~= all.skip(i));
    }
    assert(all.take(i) =~= all);
}

impl Service {
    /// Hands the queue of the session at index `j` to its channel, which can
    /// take `capacity` more items and whose receiver is alive or not
    /// (`connected`); reports the session as blocked when items remain.
    /// Nothing happens once the service has shut down.
    pub fn flush_session(&mut self, j: usize, capacity: usize, connected: bool, out: &mut Vec<Output>)
        requires
            old(self).wf(),
            j < old(self).sessions().len(),
        ensures
            final(self).wf(),
            extends(old(out)@, final(out)@),
            old(self).is_shut_down() ==> *final(self) == *old(self) && final(out)@ == old(out)@,
            !old(self).is_shut_down() ==> {
                &&& final(self).sessions().len() == old(self).sessions().len()
                &&& final(self).sessions()[j as int].context == old(self).sessions()[j as int].context
                &&& final(self).sessions()[j as int].buffer@ == send_outcome(
                    old(self).sessions()[j as int].buffer@,
                    capacity as nat,
                    connected,
                ).2
                &&& forall|k: int|
                    0 <= k < old(self).sessions().len() && k != j ==> final(self).sessions()[k]
                        == old(self).sessions()[k]
                &&& final(self).session_handles() == old(self).session_handles()
                &&& old(self).unchanged_but_sessions(&*final(self))
                &&& session_flush_outputs(
                    old(self).sessions()[j as int],
                    capacity as nat,
                    connected,
                    added(old(out)@, final(out)@),
                )
            },
    {
        if self.shutdown {
            assert(out@.take(out@.len() as int) =~= out@);
            return ;
        }
        let ghost out0 = out@;
        let mut control = self.sessions.remove(j);
        let (result, sent) = control.buffer.try_send(capacity, connected);
        let id = control.context.id;
        let blocked = if result == SendResult::Pending {
            Some(control.context.copy())
        } else {
            None
        };
        self.sessions.insert(j, control);
        proof {
            lemma_same_contexts(old(self).sessions@, self.sessions@, self.session_proto_handles@);
        }
        let ghost sent_v = sent@;
        emit_to_session(id, sent, out);
        if let Some(session_context) = blocked {
            out.push(Output::Error(ServiceError::SessionBlocked { session_context }));
        }
        proof {
            let new = added(out0, out@);
            assert(out@.take(out0.len() as int) =~= out0);
            assert(new.take(sent_v.len() as int) =~= to_session_outputs(id, sent_v));
        }
    }
}

/// What a shutdown, quick or not, does to the service `s`, giving `t`, and to
/// the outputs: the listens are closed and reported, pending background tasks
/// dropped; a quick one closes the receivers, drops every handler queue and
/// closes every session at once, a graceful one asks each session to close.
pub open spec fn shutdown_post(s: Service, quick: bool, t: Service, before: Seq<Output>, after: Seq<Output>) -> bool {
    let new = added(before, after);
    let l = s.listen_list().len() as int;
    let n = s.sessions().len() as int;
    &&& extends(before, after)
    &&& t.state() == (State { shutdown: true, ..s.state() })
    &&& t.listen_list().len() == 0
    &&& t.is_shut_down() == s.is_shut_down()
    &&& t.next_id() == s.next_id()
    &&& forall|i: int| 0 <= i < l ==> new[i] == Output::Event(ServiceEvent::ListenClose { address: s.listen_list()[i] })
    &&& new[l] is ClearFutureTasks
    &&& if quick {
        &&& new.len() == l + 2 + n
        &&& new[l + 1] is CloseReceivers
        &&& forall|i: int| 0 <= i < n ==> is_session_close(#[trigger] new[l + 2 + i], s.sessions()[i].context.id)
        &&& t.sessions().len() == 0
        &&& t.session_handles().len() == 0
        &&& t.service_handles().len() == 0
    } else {
        &&& new.len() == l + 1
        &&& t.sessions().len() == n
        &&& t.session_handles() == s.session_handles()
        &&& t.service_handles() == s.service_handles()
        &&& forall|j: int| 0 <= j < n ==> #[trigger] t.sessions()[j].context == s.sessions()[j].context
        &&& forall|j: int| 0 <= j < n ==> #[trigger] t.sessions()[j].buffer@ == s.sessions()[j].buffer@.push(
            (Priority::High, SessionCommand::SessionClose),
        )
    }
}

impl Service {
    /// The addresses listened on.
    pub closed spec fn listen_list(&self) -> Seq<Multiaddr> {
        self.listens@
    }

    /// Closes every listen, reporting each, in order.
    fn drain_listens(&mut self, out: &mut Vec<Output>)
        ensures
            *final(self) == (Service { listens: final(self).listens, ..*old(self) }),
            final(self).listens@.len() == 0,
            final(out)@.len() == old(out)@.len() + old(self).listens@.len(),
            final(out)@.take(old(out)@.len() as int) == old(out)@,
            forall|k: int| 0 <= k < old(self).listens@.len() ==> final(out)@[old(out)@.len() + k] == Output::Event(ServiceEvent::ListenClose { address: old(self).listens@[k] }),
    {
        let ghost out0 = out@;
        let mut listens: Vec<Multiaddr> = Vec::new();
        std::mem::swap(&mut listens, &mut self.listens);
        let ghost l = listens@.len() as int;
        let ghost all = listens@;
        let ghost mut i: int = 0;
        while listens.len() > 0
            invariant
                *self == (Service { listens: self.listens, ..*old(self) }),
                self.listens@.len() == 0,
                0 <= i,
                i + listens@.len() == l,
                l == old(self).listens@.len(),
                all == old(self).listens@,
                listens@ == all.skip(i),
                out@.len() == out0.len() + i,
                out@.take(out0.len() as int) == out0,
                out0 == old(out)@,
                forall|k: int| 0 <= k < i ==> out@[out0.len() + k] == Output::Event(ServiceEvent::ListenClose { address: all[k] }),
            decreases listens@.len(),
        {
            let address = listens.remove(0);
            assert(address == all[i]);
            out.push(Output::Event(ServiceEvent::ListenClose { address }));
            proof {
                i = i + 1;
            }
            assert(listens@ =~= all.skip(i));
            assert(out@.take(out0.len() as int) =~= out0);
        }
    }

    /// Drops every handler queue and closes every session at once, reporting
    /// each, in order.
    fn close_sessions_now(&mut self, out: &mut Vec<Output>)
        requires
            old(self).wf(),
        ensures
            final(self).wf(),
            *final(self) == (Service {
                sessions: final(self).sessions,
                service_proto_handles: final(self).service_proto_handles,
                session_proto_handles: final(self).session_proto_handles,
                ..*old(self)
            }),
            final(self).sessions@.len() == 0,
            final(self).service_proto_handles@.len() == 0,
            final(self).session_proto_handles@.len() == 0,
            final(out)@.len() == old(out)@.len() + old(self).sessions@.len(),
            final(out)@.take(old(out)@.len() as int) == old(out)@,
            forall|k: int| 0 <= k < old(self).sessions@.len() ==> is_session_close(#[trigger] final(out)@[old(out)@.len() + k], old(self).sessions@[k].context.id),
    {
        let ghost out1 = out@;
        self.service_proto_handles.clear();
        self.session_proto_handles.clear();
        let ghost s1 = *self;
        let ghost n = self.sessions@.len() as int;
        let ghost ss = self.sessions@;
        let ghost mut c: int = 0;
        while self.sessions.len() > 0
            invariant
                self.wf(),
                *self == (Service { sessions: self.sessions, session_proto_handles: self.session_proto_handles, ..s1 }),
                self.session_proto_handles@.len() == 0,
                s1.service_proto_handles@.len() == 0,
                0 <= c,
                c + self.sessions@.len() == n,
                self.sessions@ == ss.skip(c),
                n == old(self).sessions@.len(),
                ss == old(self).sessions@,
                out1 == old(out)@,
                out@.len() == out1.len() + c,
                out@.take(out1.len() as int) == out1,
                forall|k: int| 0 <= k < c ==> is_session_close(#[trigger] out@[out1.len() + k], ss[k].context.id),
            decreases self.sessions@.len(),
        {
            let id = self.sessions[0].context.id;
            let ghost before = out@;
            self.session_close(id, Source::Internal, out);
            proof {
                assert(self.sessions@ =~= ss.skip(c + 1)) by {
                    let i0 = choose|i0: int| 0 <= i0 < ss.skip(c).len() && ss.skip(c)[i0].context.id == id && self.sessions@ == ss.skip(c).remove(i0);
                    assert(i0 == 0);
                }
                assert(self.session_proto_handles@.len() == 0) by {
                    reveal(Seq::filter);
                }
                assert(out@.take(out1.len() as int) =~= before.take(out1.len() as int));
                c = c + 1;
            }
        }
    }

    /// Queues a high-priority close for every session.
    fn ask_sessions_to_close(&mut self)
        requires
            old(self).wf(),
        ensures
            final(self).wf(),
            *final(self) == (Service { sessions: final(self).sessions, ..*old(self) }),
            final(self).sessions@.len() == old(self).sessions@.len(),
            forall|k: int| 0 <= k < old(self).sessions@.len() ==> #[trigger] final(self).sessions@[k].context == old(self).sessions@[k].context,
            forall|k: int| 0 <= k < old(self).sessions@.len() ==> #[trigger] final(self).sessions@[k].buffer@ == old(self).sessions@[k].buffer@.push(
                (Priority::High, SessionCommand::SessionClose),
            ),
    {
        let n = self.sessions.len();
        let mut j: usize = 0;
        while j < n
            invariant
                self.wf(),
                *self == (Service { sessions: self.sessions, ..*old(self) }),
                n == old(self).sessions@.len(),
                self.sessions@.len() == n,
                0 <= j <= n,
                forall|k: int| 0 <= k < n ==> #[trigger] self.sessions@[k].context == old(self).sessions@[k].context,
                forall|k: int| 0 <= k < j ==> #[trigger] self.sessions@[k].buffer@ == old(self).sessions@[k].buffer@.push(
                    (Priority::High, SessionCommand::SessionClose),
                ),
                forall|k: int| j <= k < n ==> #[trigger] self.sessions@[k] == old(self).sessions@[k],
            decreases n - j,
        {
            self.push_to_session(j, (Priority::High, SessionCommand::SessionClose));
            j = j + 1;
        }
    }

    /// Starts the shutdown (see `shutdown_post`).
    fn shutdown(&mut self, quick: bool, out: &mut Vec<Output>)
        requires
            old(self).wf(),
        ensures
            final(self).wf(),
            shutdown_post(*old(self), quick, *final(self), old(out)@, final(out)@),
            final(self).protocol_configs == old(self).protocol_configs,
            final(self).config == old(self).config,
            final(self).dial_protocols == old(self).dial_protocols,
            final(self).initialized == old(self).initialized,
            final(self).context_listens == old(self).context_listens,
    {
        let ghost s0 = *self;
        let ghost out0 = out@;
        self.state.pre_shutdown();
        self.drain_listens(out);
        out.push(Output::ClearFutureTasks);
        let ghost out1 = out@;
        if quick {
            out.push(Output::CloseReceivers);
            let ghost out2 = out@;
            self.close_sessions_now(out);
            proof {
                let new = added(out0, out@);
                let l = s0.listens@.len() as int;
                assert(out@.take(out0.len() as int) =~= out0) by {
                    assert(out@.take(out2.len() as int).take(out0.len() as int) =~= out@.take(out0.len() as int));
                    assert(out2.take(out0.len() as int) =~= out0);
                }
                assert forall|k: int| 0 <= k < l implies new[k] == Output::Event(ServiceEvent::ListenClose { address: s0.listens@[k] }) by {
                    assert(out@.take(out2.len() as int)[out0.len() + k] == out2[out0.len() + k]);
                }
                assert(new[l] == out2[out1.len() - 1]) by {
                    assert(out@.take(out2.len() as int)[out1.len() - 1] == out2[out1.len() - 1]);
                }
                assert(new[l + 1] == Output::CloseReceivers) by {
                    assert(out@.take(out2.len() as int)[out2.len() - 1] == out2[out2.len() - 1]);
                }
                assert forall|k: int| 0 <= k < s0.sessions@.len() implies is_session_close(#[trigger] new[l + 2 + k], s0.sessions@[k].context.id) by {
                    assert(new[l + 2 + k] == out@[out2.len() + k]);
                }
            }
        } else {
            self.ask_sessions_to_close();
            proof {
                assert(out@.take(out0.len() as int) =~= out0);
            }
        }
    }
}

/// The views of a sequence of addresses.
pub open spec fn addrs_view(v: Seq<Multiaddr>) -> Seq<Seq<(u32, Seq<u8>)>> {
    v.map_values(|a: Multiaddr| a@)
}

/// A copy of a list of addresses.
fn copy_addrs(v: &Vec<Multiaddr>) -> (r: Vec<Multiaddr>)
    ensures
        addrs_view(r@) == addrs_view(v@),
{
    let mut r: Vec<Multiaddr> = Vec::new();
    let mut i: usize = 0;
    while i < v.len()
        invariant
            0 <= i <= v@.len(),
            r@.len() == i,
            forall|j: int| 0 <= j < i ==> r@[j]@ == v@[j]@,
        decreases v@.len() - i,
    {
        r.push(v[i].clone());
        i = i + 1;
    }
    assert(addrs_view(r@) =~= addrs_view(v@));
    r
}

/// `e` tells a service-level handler that the listens are `addrs`.
pub open spec fn is_service_update(e: ServiceProtocolEvent, addrs: Seq<Seq<(u32, Seq<u8>)>>) -> bool {
    match e {
        ServiceProtocolEvent::Update { listen_addrs } => addrs_view(listen_addrs@) == addrs,
        _ => false,
    }
}

/// `e` tells a session-level handler that the listens are `addrs`.
pub open spec fn is_session_update(e: SessionProtocolEvent, addrs: Seq<Seq<(u32, Seq<u8>)>>) -> bool {
    match e {
        SessionProtocolEvent::Update { listen_addrs } => addrs_view(listen_addrs@) == addrs,
        _ => false,
    }
}

/// After the listens of `t` were settled, they were published to the
/// handlers of `s`, giving `t`, when their count differs from what `s` had
/// published: each handler queue then gains one `Update` with them;
/// otherwise nothing is published.
pub open spec fn listens_published(s: Service, t: Service) -> bool {
    let addrs = addrs_view(t.listen_list());
    if t.listen_list().len() != s.published_listens().len() {
        &&& t.published_listens() == addrs
        &&& t.service_handles().len() == s.service_handles().len()
        &&& forall|k: int| #![trigger t.service_handles()[k]] 0 <= k < s.service_handles().len() ==> {
            &&& t.service_handles()[k].0 == s.service_handles()[k].0
            &&& t.service_handles()[k].1@.len() == s.service_handles()[k].1@.len() + 1
            &&& t.service_handles()[k].1@.drop_last() == s.service_handles()[k].1@
            &&& is_service_update(t.service_handles()[k].1@.last(), addrs)
        }
        &&& t.session_handles().len() == s.session_handles().len()
        &&& forall|k: int| #![trigger t.session_handles()[k]] 0 <= k < s.session_handles().len() ==> {
            &&& t.session_handles()[k].0 == s.session_handles()[k].0
            &&& t.session_handles()[k].1 == s.session_handles()[k].1
            &&& t.session_handles()[k].2@.len() == s.session_handles()[k].2@.len() + 1
            &&& t.session_handles()[k].2@.drop_last() == s.session_handles()[k].2@
            &&& is_session_update(t.session_handles()[k].2@.last(), addrs)
        }
    } else {
        &&& t.published_listens() == s.published_listens()
        &&& t.service_handles() == s.service_handles()
        &&& t.session_handles() == s.session_handles()
    }
}

impl Service {
    /// The listens last published to the handlers.
    pub closed spec fn published_listens(&self) -> Seq<Seq<(u32, Seq<u8>)>> {
        addrs_view(self.context_listens@)
    }

    /// Whether the service-level handlers have been created.
    pub closed spec fn is_initialized(&self) -> bool {
        self.initialized
    }

    /// Appends `e` to the queue of the service-level handler at index `k`.
    fn push_to_service_handle(&mut self, k: usize, e: ServiceProtocolEvent)
        requires
            old(self).wf(),
            k < old(self).service_proto_handles@.len(),
        ensures
            final(self).wf(),
            final(self).service_proto_handles@.len() == old(self).service_proto_handles@.len(),
            final(self).service_proto_handles@[k as int].0 == old(self).service_proto_handles@[k as int].0,
            final(self).service_proto_handles@[k as int].1@ == old(self).service_proto_handles@[k as int].1@.push(e),
            forall|j: int| 0 <= j < old(self).service_proto_handles@.len() && j != k ==> final(self).service_proto_handles@[j] == old(self).service_proto_handles@[j],
            *final(self) == (Service { service_proto_handles: final(self).service_proto_handles, ..*old(self) }),
    {
        let (proto_id, mut buffer) = self.service_proto_handles.remove(k);
        buffer.push(e);
        self.service_proto_handles.insert(k, (proto_id, buffer));
    }

    /// Appends `e` to the queue of the session-level handler at index `k`.
    fn push_to_session_handle(&mut self, k: usize, e: SessionProtocolEvent)
        requires
            old(self).wf(),
            k < old(self).session_proto_handles@.len(),
        ensures
            final(self).wf(),
            final(self).session_proto_handles@.len() == old(self).session_proto_handles@.len(),
            final(self).session_proto_handles@[k as int].0 == old(self).session_proto_handles@[k as int].0,
            final(self).session_proto_handles@[k as int].1 == old(self).session_proto_handles@[k as int].1,
            final(self).session_proto_handles@[k as int].2@ == old(self).session_proto_handles@[k as int].2@.push(e),
            forall|j: int| 0 <= j < old(self).session_proto_handles@.len() && j != k ==> final(self).session_proto_handles@[j] == old(self).session_proto_handles@[j],
            *final(self) == (Service { session_proto_handles: final(self).session_proto_handles, ..*old(self) }),
    {
        let ghost h0 = self.session_proto_handles@;
        let (id, proto_id, mut buffer) = self.session_proto_handles.remove(k);
        buffer.push(e);
        self.session_proto_handles.insert(k, (id, proto_id, buffer));
        proof {
            let h1 = self.session_proto_handles@;
            assert forall|j: int| 0 <= j < h1.len() implies #[trigger] h1[j].0 == h0[j].0 && h1[j].1 == h0[j].1 by {
                if j != k {
                    assert(h1[j] == h0[j]);
                }
            }
            assert(handles_keyed(self.sessions@, h1)) by {
                assert forall|j: int| 0 <= j < h1.len() implies has_id(self.sessions@, #[trigger] h1[j].0) by {
                    assert(h1[j].0 == h0[j].0);
                    assert(has_id(self.sessions@, h0[j].0));
                }
                assert forall|a: int, b: int| 0 <= a < h1.len() && 0 <= b < h1.len() && a != b implies (h1[a].0, h1[a].1) != (h1[b].0, h1[b].1) by {
                    assert(h1[a].0 == h0[a].0 && h1[a].1 == h0[a].1);
                    assert(h1[b].0 == h0[b].0 && h1[b].1 == h0[b].1);
                }
            }
        }
    }

    /// When the set of listens changed since it was last published, publishes
    /// it and queues an `Update` with it for every handler.
    pub fn try_update_listens(&mut self)
        requires
            old(self).wf(),
        ensures
            final(self).wf(),
            old(self).listen_list().len() == old(self).published_listens().len() ==> *final(self) == *old(self),
            old(self).listen_list().len() != old(self).published_listens().len() ==> {
                let addrs = addrs_view(old(self).listen_list());
                &&& final(self).published_listens() == addrs
                &&& final(self).service_handles().len() == old(self).service_handles().len()
                &&& forall|k: int| #![trigger final(self).service_handles()[k]] 0 <= k < old(self).service_handles().len() ==> {
                    &&& final(self).service_handles()[k].0 == old(self).service_handles()[k].0
                    &&& final(self).service_handles()[k].1@.len() == old(self).service_handles()[k].1@.len() + 1
                    &&& final(self).service_handles()[k].1@.drop_last() == old(self).service_handles()[k].1@
                    &&& is_service_update(final(self).service_handles()[k].1@.last(), addrs)
                }
                &&& final(self).session_handles().len() == old(self).session_handles().len()
                &&& forall|k: int| #![trigger final(self).session_handles()[k]] 0 <= k < old(self).session_handles().len() ==> {
                    &&& final(self).session_handles()[k].0 == old(self).session_handles()[k].0
                    &&& final(self).session_handles()[k].1 == old(self).session_handles()[k].1
                    &&& final(self).session_handles()[k].2@.len() == old(self).session_handles()[k].2@.len() + 1
                    &&& final(self).session_handles()[k].2@.drop_last() == old(self).session_handles()[k].2@
                    &&& is_session_update(final(self).session_handles()[k].2@.last(), addrs)
                }
                &&& old(self).same_but_listens_and_handles(&*final(self))
            },
    {
        if self.listens.len() == self.context_listens.len() {
            return ;
        }
        let ghost addrs = addrs_view(self.listens@);
        self.context_listens = copy_addrs(&self.listens);
        let ghost s1 = *self;
        let n = self.service_proto_handles.len();
        let mut k: usize = 0;
        while k < n
            invariant
                self.wf(),
                *self == (Service { service_proto_handles: self.service_proto_handles, ..s1 }),
                addrs == addrs_view(self.listens@),
                n == s1.service_proto_handles@.len(),
                self.service_proto_handles@.len() == n,
                0 <= k <= n,
                forall|j: int| #![trigger self.service_proto_handles@[j]] 0 <= j < n ==> self.service_proto_handles@[j].0 == s1.service_proto_handles@[j].0,
                forall|j: int| #![trigger self.service_proto_handles@[j]] 0 <= j < k ==> {
                    &&& self.service_proto_handles@[j].1@.len() == s1.service_proto_handles@[j].1@.len() + 1
                    &&& self.service_proto_handles@[j].1@.drop_last() == s1.service_proto_handles@[j].1@
                    &&& is_service_update(self.service_proto_handles@[j].1@.last(), addrs)
                },
                forall|j: int| #![trigger self.service_proto_handles@[j]] k <= j < n ==> self.service_proto_handles@[j] == s1.service_proto_handles@[j],
            decreases n - k,
        {
            let e = ServiceProtocolEvent::Update { listen_addrs: copy_addrs(&self.listens) };
            let ghost b0 = self.service_proto_handles@[k as int].1@;
            self.push_to_service_handle(k, e);
            assert(self.service_proto_handles@[k as int].1@.drop_last() =~= b0);
            k = k + 1;
        }
        let ghost s2 = *self;
        let m = self.session_proto_handles.len();
        let mut k: usize = 0;
        while k < m
            invariant
                self.wf(),
                *self == (Service { session_proto_handles: self.session_proto_handles, ..s2 }),
                addrs == addrs_view(self.listens@),
                m == s2.session_proto_handles@.len(),
                self.session_proto_handles@.len() == m,
                0 <= k <= m,
                forall|j: int| #![trigger self.session_proto_handles@[j]] 0 <= j < m ==> self.session_proto_handles@[j].0 == s2.session_proto_handles@[j].0 && self.session_proto_handles@[j].1 == s2.session_proto_handles@[j].1,
                forall|j: int| #![trigger self.session_proto_handles@[j]] 0 <= j < k ==> {
                    &&& self.session_proto_handles@[j].2@.len() == s2.session_proto_handles@[j].2@.len() + 1
                    &&& self.session_proto_handles@[j].2@.drop_last() == s2.session_proto_handles@[j].2@
                    &&& is_session_update(self.session_proto_handles@[j].2@.last(), addrs)
                },
                forall|j: int| #![trigger self.session_proto_handles@[j]] k <= j < m ==> self.session_proto_handles@[j] == s2.session_proto_handles@[j],
            decreases m - k,
        {
            let e = SessionProtocolEvent::Update { listen_addrs: copy_addrs(&self.listens) };
            let ghost b0 = self.session_proto_handles@[k as int].2@;
            self.push_to_session_handle(k, e);
            assert(self.session_proto_handles@[k as int].2@.drop_last() =~= b0);
            k = k + 1;
        }
        assert(self.published_listens() == addrs);
        assert(self.service_proto_handles@.len() == old(self).service_proto_handles@.len());
        assert(self.session_proto_handles@.len() == old(self).session_proto_handles@.len());
        assert(forall|k: int| #![trigger self.service_proto_handles@[k]] 0 <= k < old(self).service_proto_handles@.len() ==> {
                    &&& self.service_proto_handles@[k].0 == old(self).service_proto_handles@[k].0
                    &&& self.service_proto_handles@[k].1@.len() == old(self).service_proto_handles@[k].1@.len() + 1
                    &&& self.service_proto_handles@[k].1@.drop_last() == old(self).service_proto_handles@[k].1@
                    &&& is_service_update(self.service_proto_handles@[k].1@.last(), addrs)
                });
        assert(forall|k: int| #![trigger self.session_proto_handles@[k]] 0 <= k < old(self).session_proto_handles@.len() ==> {
                    &&& self.session_proto_handles@[k].0 == old(self).session_proto_handles@[k].0
                    &&& self.session_proto_handles@[k].1 == old(self).session_proto_handles@[k].1
                    &&& self.session_proto_handles@[k].2@.len() == old(self).session_proto_handles@[k].2@.len() + 1
                    &&& self.session_proto_handles@[k].2@.drop_last() == old(self).session_proto_handles@[k].2@
                    &&& is_session_update(self.session_proto_handles@[k].2@.last(), addrs)
                });
    }

    /// On the first round: creates the queue of each protocol's service-level
    /// callback handler, holding `Init`, and asks for the handler to start.
    pub fn init_proto_handles(&mut self, out: &mut Vec<Output>)
        requires
            old(self).wf(),
        ensures
            final(self).wf(),
            final(self).is_initialized(),
            old(self).is_initialized() ==> *final(self) == *old(self) && final(out)@ == old(out)@,
            !old(self).is_initialized() ==> {
                let ids = callback_ids(old(self).protocols(), true);
                &&& final(self).service_handles().len() == ids.len()
                &&& forall|k: int| 0 <= k < ids.len() ==> #[trigger] final(self).service_handles()[k].0 == ids[k]
                    && final(self).service_handles()[k].1@ == seq![ServiceProtocolEvent::Init]
                &&& final(out)@ == old(out)@.push(Output::StartFutureTasks) + ids.map_values(|id: ProtocolId| Output::StartServiceHandle { proto_id: id })
                &&& final(self).wait_list() == old(self).wait_list().push((WaitTask::FutureTasks, true)) + ids.map_values(|id: ProtocolId| (WaitTask::ServiceHandle(id), true))
                &&& final(self).sessions() == old(self).sessions()
                &&& final(self).session_handles() == old(self).session_handles()
                &&& final(self).state() == old(self).state()
                &&& final(self).is_shut_down() == old(self).is_shut_down()
            },
    {
        if self.initialized {
            return ;
        }
        let ghost w0 = self.waiting@;
        let ghost o0 = out@;
        self.waiting.push((WaitTask::FutureTasks, true));
        out.push(Output::StartFutureTasks);
        let ghost s0 = *self;
        let ghost out0 = out@;
        let mut i: usize = 0;
        proof {
            lemma_callback_ids(self.protocol_configs@, true);
        }
        while i < self.protocol_configs.len()
            invariant
                *self == (Service { service_proto_handles: self.service_proto_handles, waiting: self.waiting, ..s0 }),
                self.waiting@ == s0.waiting@ + callback_ids(self.protocol_configs@.take(i as int), true).map_values(|id: ProtocolId| (WaitTask::ServiceHandle(id), true)),
                s0.wf(),
                !s0.initialized,
                0 <= i <= self.protocol_configs@.len(),
                self.service_proto_handles@.len() == callback_ids(self.protocol_configs@.take(i as int), true).len(),
                forall|k: int| 0 <= k < self.service_proto_handles@.len() ==> #[trigger] self.service_proto_handles@[k].0 == callback_ids(self.protocol_configs@.take(i as int), true)[k]
                    && self.service_proto_handles@[k].1@ == seq![ServiceProtocolEvent::Init],
                out@ == out0 + callback_ids(self.protocol_configs@.take(i as int), true).map_values(|id: ProtocolId| Output::StartServiceHandle { proto_id: id }),
            decreases self.protocol_configs@.len() - i,
        {
            let ghost pre = self.protocol_configs@.take(i as int);
            assert(self.protocol_configs@.take(i as int + 1).drop_last() =~= pre);
            let ghost ids0 = callback_ids(pre, true);
            let meta = &self.protocol_configs[i];
            if meta.service_handle.has_callback() {
                let pid = meta.id;
                let mut buffer = Buffer::new();
                buffer.push(ServiceProtocolEvent::Init);
                self.service_proto_handles.push((pid, buffer));
                self.waiting.push((WaitTask::ServiceHandle(pid), true));
                out.push(Output::StartServiceHandle { proto_id: pid });
                proof {
                    let ids1 = callback_ids(self.protocol_configs@.take(i as int + 1), true);
                    assert(ids1 == ids0.push(pid));
                    assert(ids1.map_values(|id: ProtocolId| Output::StartServiceHandle { proto_id: id }) =~= ids0.map_values(|id: ProtocolId| Output::StartServiceHandle { proto_id: id }).push(Output::StartServiceHandle { proto_id: pid }));
                    assert(ids1.map_values(|id: ProtocolId| (WaitTask::ServiceHandle(id), true)) =~= ids0.map_values(|id: ProtocolId| (WaitTask::ServiceHandle(id), true)).push((WaitTask::ServiceHandle(pid), true)));
                }
            }
            i = i + 1;
        }
        assert(self.protocol_configs@.take(i as int) =~= self.protocol_configs@);
        self.initialized = true;
        proof {
            let ids = callback_ids(self.protocol_configs@, true);
            assert forall|k: int, l: int| 0 <= k < self.service_proto_handles@.len() && 0 <= l < self.service_proto_handles@.len() && k != l
                implies self.service_proto_handles@[k].0 != self.service_proto_handles@[l].0 by {
                assert(self.service_proto_handles@[k].0 == ids[k]);
                assert(self.service_proto_handles@[l].0 == ids[l]);
            }
        }
    }
}

/// Filtering the records keeps them keyed on open sessions.
proof fn lemma_handles_keyed_filter(
    s: Seq<SessionController>,
    h: Seq<(SessionId, ProtocolId, Buffer<SessionProtocolEvent>)>,
    pred: spec_fn((SessionId, ProtocolId, Buffer<SessionProtocolEvent>)) -> bool,
)
    requires
        handles_keyed(s, h),
    ensures
        handles_keyed(s, h.filter(pred)),
{
    let f = h.filter(pred);
    assert forall|k: int| 0 <= k < f.len() implies has_id(s, #[trigger] f[k].0) by {
        assert(f.contains(f[k]));
        h.lemma_filter_contains_rev(pred, f[k]);
        let kk = choose|kk: int| 0 <= kk < h.len() && h[kk] == f[k];
        assert(has_id(s, h[kk].0));
    }
    lemma_filter_unique_pairs(h, pred);
}

/// `o` hands the opening of `proto_id` (version `version`) on session `id`
/// to the user's `handle_proto`.
pub open spec fn is_proto_connected(o: Output, id: SessionId, proto_id: ProtocolId, version: String) -> bool {
    match o {
        Output::Proto(ProtocolEvent::Connected { session_context, proto_id: p, version: v }) =>
            session_context.id == id && p == proto_id && v == version,
        _ => false,
    }
}

/// `o` hands a message on `proto_id` from session `id` to `handle_proto`.
pub open spec fn is_proto_received(o: Output, id: SessionId, proto_id: ProtocolId, data: bytes::Bytes) -> bool {
    match o {
        Output::Proto(ProtocolEvent::Received { session_context, proto_id: p, data: d }) =>
            session_context.id == id && p == proto_id && d == data,
        _ => false,
    }
}

/// `o` hands the closing of `proto_id` on session `id` to `handle_proto`.
pub open spec fn is_proto_disconnected(o: Output, id: SessionId, proto_id: ProtocolId) -> bool {
    match o {
        Output::Proto(ProtocolEvent::Disconnected { proto_id: p, session_context }) =>
            session_context.id == id && p == proto_id,
        _ => false,
    }
}

/// Queuing `command` at high priority for session `id` of `s`, when open,
/// gives `t`.
pub open spec fn command_queued(s: Service, id: SessionId, command: SessionCommand, t: Service) -> bool {
    &&& s.unchanged_but_sessions(&t)
    &&& t.session_handles() == s.session_handles()
    &&& t.sessions().len() == s.sessions().len()
    &&& forall|j: int|
        0 <= j < s.sessions().len() && s.sessions()[j].context.id != id ==> t.sessions()[j]
            == s.sessions()[j]
    &&& forall|j: int|
        0 <= j < s.sessions().len() && s.sessions()[j].context.id == id ==> {
            &&& t.sessions()[j].context == s.sessions()[j].context
            &&& t.sessions()[j].buffer@ == s.sessions()[j].buffer@.push((Priority::High, command))
        }
}

impl Service {
    /// Whether the user's `handle_proto` gets the events of `proto_id`.
    pub closed spec fn wants_events(&self, proto_id: ProtocolId) -> bool {
        self.config.event@.contains(proto_id)
    }

    fn event_wanted(&self, proto_id: ProtocolId) -> (r: bool)
        ensures
            r == self.wants_events(proto_id),
    {
        let mut i: usize = 0;
        while i < self.config.event.len()
            invariant
                0 <= i <= self.config.event@.len(),
                forall|j: int| 0 <= j < i ==> self.config.event@[j] != proto_id,
            decreases self.config.event@.len() - i,
        {
            if self.config.event[i] == proto_id {
                return true;
            }
            i = i + 1;
        }
        false
    }

    /// Queues `command` at high priority for session `id`, when it is open.
    fn queue_command(&mut self, id: SessionId, command: SessionCommand)
        requires
            old(self).wf(),
        ensures
            final(self).wf(),
            command_queued(*old(self), id, command, *final(self)),
    {
        if let Some(j) = self.find_session(id) {
            self.push_to_session(j, (Priority::High, command));
            assert forall|k: int| 0 <= k < old(self).sessions@.len() && old(self).sessions@[k].context.id == id implies k == j by {}
        }
    }

    /// A protocol opened on session `id` (`Internal`): its event goes to
    /// `handle_proto` when wanted.  From the user (`External`): the session
    /// is asked to open it.
    fn protocol_open(&mut self, id: SessionId, proto_id: ProtocolId, version: String, source: Source, out: &mut Vec<Output>)
        requires
            old(self).wf(),
        ensures
            final(self).wf(),
            source == Source::External ==> final(out)@ == old(out)@ && command_queued(*old(self), id, SessionCommand::ProtocolOpen { proto_id }, *final(self)),
            source == Source::Internal ==> *final(self) == *old(self) && if old(self).wants_events(proto_id) && old(self).has_session(id) {
                final(out)@.len() == old(out)@.len() + 1 && final(out)@.drop_last() == old(out)@ && is_proto_connected(final(out)@.last(), id, proto_id, version)
            } else {
                final(out)@ == old(out)@
            },
    {
        if source == Source::External {
            self.queue_command(id, SessionCommand::ProtocolOpen { proto_id });
            return ;
        }
        if self.event_wanted(proto_id) {
            if let Some(j) = self.find_session(id) {
                let session_context = self.sessions[j].context.copy();
                out.push(Output::Proto(ProtocolEvent::Connected { session_context, proto_id, version }));
                assert(out@.drop_last() =~= old(out)@);
            }
        }
    }

    /// A message arrived on `proto_id` from session `id`: it goes to
    /// `handle_proto` when wanted.
    fn protocol_message(&mut self, id: SessionId, proto_id: ProtocolId, data: bytes::Bytes, out: &mut Vec<Output>)
        ensures
            if old(self).wants_events(proto_id) && old(self).has_session(id) {
                final(out)@.len() == old(out)@.len() + 1 && final(out)@.drop_last() == old(out)@ && is_proto_received(final(out)@.last(), id, proto_id, data)
            } else {
                final(out)@ == old(out)@
            },
            *final(self) == *old(self),
    {
        if self.event_wanted(proto_id) {
            if let Some(j) = self.find_session(id) {
                let session_context = self.sessions[j].context.copy();
                out.push(Output::Proto(ProtocolEvent::Received { session_context, proto_id, data }));
                assert(out@.drop_last() =~= old(out)@);
            }
        }
    }

    /// A protocol closed on session `id` (`Internal`): its event goes to
    /// `handle_proto` when wanted, and the handler record of that session and
    /// protocol is removed.  From the user (`External`): the session is asked
    /// to close it.
    fn protocol_close(&mut self, id: SessionId, proto_id: ProtocolId, source: Source, out: &mut Vec<Output>)
        requires
            old(self).wf(),
        ensures
            final(self).wf(),
            source == Source::External ==> final(out)@ == old(out)@ && command_queued(*old(self), id, SessionCommand::ProtocolClose { proto_id }, *final(self)),
            source == Source::Internal ==> {
                &&& old(self).same_but_session_handles(&*final(self))
                &&& final(self).session_handles() == handles_after_close(old(self).session_handles(), id, Some(proto_id))
                &&& if old(self).wants_events(proto_id) && old(self).has_session(id) {
                    final(out)@.len() == old(out)@.len() + 1 && final(out)@.drop_last() == old(out)@ && is_proto_disconnected(final(out)@.last(), id, proto_id)
                } else {
                    final(out)@ == old(out)@
                }
            },
    {
        if source == Source::External {
            self.queue_command(id, SessionCommand::ProtocolClose { proto_id });
            return ;
        }
        if self.event_wanted(proto_id) {
            if let Some(j) = self.find_session(id) {
                let session_context = self.sessions[j].context.copy();
                out.push(Output::Proto(ProtocolEvent::Disconnected { proto_id, session_context }));
                assert(out@.drop_last() =~= old(out)@);
            }
        }
        retain_handles(&mut self.session_proto_handles, id, Some(proto_id));
        proof {
            lemma_handles_keyed_filter(self.sessions@, old(self).session_proto_handles@, kept_by(id, Some(proto_id)));
        }
    }

    /// Whether a new session would pass `max_connection_number` (sessions
    /// plus attempts in flight), or the id space is full.
    pub open spec fn spec_reached_limit(&self) -> bool {
        self.sessions().len() + self.state().pending > self.max_connections()
            || self.sessions().len() + 1 >= u32::MAX
    }

    fn reached_max_connection_limit(&self) -> (r: bool)
        requires
            self.wf(),
        ensures
            r == self.spec_reached_limit(),
    {
        let n = self.sessions.len() as u64;
        let count: u64 = n + self.state.pending as u64;
        count > self.config.max_connection_number as u64 || n + 1 >= u32::MAX as u64
    }
}

impl Service {
    /// Items queued for all sessions together.
    pub open spec fn outbound_total(&self) -> nat {
        total(session_queue_lens(self.sessions()))
    }

    /// Items queued for the service-level handlers together.
    pub open spec fn service_inbound_total(&self) -> nat {
        total(service_handle_lens(self.service_handles()))
    }

    /// Items queued for the session-level handlers together.
    pub open spec fn session_inbound_total(&self) -> nat {
        total(session_handle_lens(self.session_handles()))
    }

    /// Whether the next user task may be taken: not while the items queued
    /// for the sessions exceed `send_event_size` (outbound backpressure).
    pub fn accepts_user_tasks(&self) -> (r: bool)
        ensures
            r == (self.outbound_total() <= self.send_limit()),
    {
        let limit = self.config.send_event_size;
        let ghost lens = session_queue_lens(self.sessions@);
        let mut sum: usize = 0;
        let mut i: usize = 0;
        while i < self.sessions.len()
            invariant
                lens == session_queue_lens(self.sessions@),
                0 <= i <= self.sessions@.len(),
                sum == total(lens.take(i as int)),
                sum <= limit,
                limit == self.config.send_event_size,
            decreases self.sessions@.len() - i,
        {
            let n = self.sessions[i].buffer.len();
            assert(n == lens[i as int]);
            proof {
                lemma_total_step(lens, i as int);
            }
            if n > limit - sum {
                proof {
                    lemma_total_prefix_le(lens, i as int + 1);
                }
                return false;
            }
            sum = sum + n;
            i = i + 1;
        }
        assert(lens.take(i as int) =~= lens);
        true
    }

    /// Whether the next session event may be taken: not while the items
    /// queued for either class of handlers exceed `recv_event_size` (inbound
    /// backpressure).
    pub fn accepts_session_events(&self) -> (r: bool)
        ensures
            r == (self.service_inbound_total() <= self.recv_limit() && self.session_inbound_total()
                <= self.recv_limit()),
    {
        let limit = self.config.recv_event_size;
        let ghost lens = service_handle_lens(self.service_proto_handles@);
        let mut sum: usize = 0;
        let mut i: usize = 0;
        while i < self.service_proto_handles.len()
            invariant
                lens == service_handle_lens(self.service_proto_handles@),
                0 <= i <= self.service_proto_handles@.len(),
                sum == total(lens.take(i as int)),
                sum <= limit,
                limit == self.config.recv_event_size,
            decreases self.service_proto_handles@.len() - i,
        {
            let n = self.service_proto_handles[i].1.len();
            assert(n == lens[i as int]);
            proof {
                lemma_total_step(lens, i as int);
            }
            if n > limit - sum {
                proof {
                    lemma_total_prefix_le(lens, i as int + 1);
                }
                return false;
            }
            sum = sum + n;
            i = i + 1;
        }
        assert(lens.take(i as int) =~= lens);
        let ghost lens2 = session_handle_lens(self.session_proto_handles@);
        let mut sum2: usize = 0;
        let mut k: usize = 0;
        while k < self.session_proto_handles.len()
            invariant
                lens2 == session_handle_lens(self.session_proto_handles@),
                0 <= k <= self.session_proto_handles@.len(),
                sum2 == total(lens2.take(k as int)),
                sum2 <= limit,
                limit == self.config.recv_event_size,
                total(lens) <= limit,
                lens == service_handle_lens(self.service_proto_handles@),
            decreases self.session_proto_handles@.len() - k,
        {
            let n = self.session_proto_handles[k].2.len();
            assert(n == lens2[k as int]);
            proof {
                lemma_total_step(lens2, k as int);
            }
            if n > limit - sum2 {
                proof {
                    lemma_total_prefix_le(lens2, k as int + 1);
                }
                return false;
            }
            sum2 = sum2 + n;
            k = k + 1;
        }
        assert(lens2.take(k as int) =~= lens2);
        true
    }
}

/// A prefix sums to no more than the whole.
proof fn lemma_total_prefix_le(lens: Seq<nat>, i: int)
    requires
        0 <= i <= lens.len(),
    ensures
        total(lens.take(i)) <= total(lens),
    decreases lens.len() - i,
{
    if i < lens.len() {
        lemma_total_step(lens, i);
        lemma_total_prefix_le(lens, i + 1);
    } else {
        assert(lens.take(i) =~= lens);
    }
}

/// The report on a handler queue whose flush came to `r`; `sid` names the
/// session of a session-level handler.
pub open spec fn handler_report(proto_id: ProtocolId, r: SendResult, sid: Option<SessionId>) -> Seq<Output> {
    match r {
        SendResult::Pending => seq![
            Output::Error(
                ServiceError::ProtocolHandleError { proto_id, error: ProtocolHandleErrorKind::Block(sid) },
            ),
        ],
        SendResult::Disconnect => seq![
            Output::Error(
                ServiceError::ProtocolHandleError {
                    proto_id,
                    error: ProtocolHandleErrorKind::AbnormallyClosed(sid),
                },
            ),
        ],
        SendResult::Drained => Seq::empty(),
    }
}

/// The outputs that hand `sent` to the service-level handler of `proto_id`.
pub open spec fn to_service_handle_outputs(proto_id: ProtocolId, sent: Seq<ServiceProtocolEvent>) -> Seq<Output> {
    sent.map_values(|e: ServiceProtocolEvent| Output::ToServiceHandle { proto_id, event: e })
}

/// The outputs that hand `sent` to the handler of session `id` and `proto_id`.
pub open spec fn to_session_handle_outputs(
    id: SessionId,
    proto_id: ProtocolId,
    sent: Seq<SessionProtocolEvent>,
) -> Seq<Output> {
    sent.map_values(|e: SessionProtocolEvent| Output::ToSessionHandle { id, proto_id, event: e })
}

fn emit_to_service_handle(proto_id: ProtocolId, sent: Vec<ServiceProtocolEvent>, out: &mut Vec<Output>)
    ensures
        final(out)@ == old(out)@ + to_service_handle_outputs(proto_id, sent@),
{
    let ghost all = sent@;
    let mut rest = sent;
    let ghost mut i: int = 0;
    while rest.len() > 0
        invariant
            0 <= i,
            i + rest@.len() == all.len(),
            rest@ == all.skip(i),
            out@ == old(out)@ + to_service_handle_outputs(proto_id, all.take(i)),
        decreases rest@.len(),
    {
        let event = rest.remove(0);
        out.push(Output::ToServiceHandle { proto_id, event });
        proof {
            assert(to_service_handle_outputs(proto_id, all.take(i + 1)) =~= to_service_handle_outputs(
                proto_id,
                all.take(i),
            ).push(Output::ToServiceHandle { proto_id, event }));
            i = i + 1;
        }
        assert(rest@ =~= all.skip(i));
    }
    assert(all.take(i) =~= all);
}

fn emit_to_session_handle(
    id: SessionId,
    proto_id: ProtocolId,
    sent: Vec<SessionProtocolEvent>,
    out: &mut Vec<Output>,
)
    ensures
        final(out)@ == old(out)@ + to_session_handle_outputs(id, proto_id, sent@),
{
    let ghost all = sent@;
    let mut rest = sent;
    let ghost mut i: int = 0;
    while rest.len() > 0
        invariant
            0 <= i,
            i + rest@.len() == all.len(),
            rest@ == all.skip(i),
            out@ == old(out)@ + to_session_handle_outputs(id, proto_id, all.take(i)),
        decreases rest@.len(),
    {
        let event = rest.remove(0);
        out.push(Output::ToSessionHandle { id, proto_id, event });
        proof {
            assert(to_session_handle_outputs(id, proto_id, all.take(i + 1)) =~= to_session_handle_outputs(
                id,
                proto_id,
                all.take(i),
            ).push(Output::ToSessionHandle { id, proto_id, event }));
            i = i + 1;
        }
        assert(rest@ =~= all.skip(i));
    }
    assert(all.take(i) =~= all);
}

fn report_handler(proto_id: ProtocolId, r: SendResult, sid: Option<SessionId>, out: &mut Vec<Output>)
    ensures
        final(out)@ == old(out)@ + handler_report(proto_id, r, sid),
{
    match r {
        SendResult::Pending => {
            out.push(
                Output::Error(
                    ServiceError::ProtocolHandleError { proto_id, error: ProtocolHandleErrorKind::Block(sid) },
                ),
            );
        },
        SendResult::Disconnect => {
            out.push(
                Output::Error(
                    ServiceError::ProtocolHandleError {
                        proto_id,
                        error: ProtocolHandleErrorKind::AbnormallyClosed(sid),
                    },
                ),
            );
        },
        SendResult::Drained => {},
    }
    assert(final(out)@ =~= old(out)@ + handler_report(proto_id, r, sid));
}

impl Service {
    /// Only the service-level handler queues may differ.
    pub closed spec fn same_but_service_handles(&self, t: &Service) -> bool {
        *t == (Service { service_proto_handles: t.service_proto_handles, ..*self })
    }

    /// Only the session-level handler records may differ.
    pub closed spec fn same_but_session_handles(&self, t: &Service) -> bool {
        *t == (Service { session_proto_handles: t.session_proto_handles, ..*self })
    }

    /// Hands the queue of the service-level handler at index `k` to its
    /// channel (see `Buffer::try_send`) and reports it if it is blocked or
    /// gone.  Nothing happens once the service has shut down.
    pub fn flush_service_handle(&mut self, k: usize, capacity: usize, connected: bool, out: &mut Vec<Output>) -> (r: SendResult)
        requires
            old(self).wf(),
            k < old(self).service_handles().len(),
        ensures
            final(self).wf(),
            old(self).is_shut_down() ==> *final(self) == *old(self) && final(out)@ == old(out)@ && r == SendResult::Drained,
            !old(self).is_shut_down() ==> {
                let h = old(self).service_handles()[k as int];
                let o = send_outcome(h.1@, capacity as nat, connected);
                &&& r == o.0
                &&& final(self).service_handles().len() == old(self).service_handles().len()
                &&& final(self).service_handles()[k as int].0 == h.0
                &&& final(self).service_handles()[k as int].1@ == o.2
                &&& forall|j: int| 0 <= j < old(self).service_handles().len() && j != k ==> final(self).service_handles()[j] == old(self).service_handles()[j]
                &&& final(out)@ == old(out)@ + to_service_handle_outputs(h.0, o.1) + handler_report(h.0, o.0, None)
                &&& old(self).same_but_service_handles(&*final(self))
            },
    {
        if self.shutdown {
            return SendResult::Drained;
        }
        let (proto_id, mut buffer) = self.service_proto_handles.remove(k);
        let (result, sent) = buffer.try_send(capacity, connected);
        self.service_proto_handles.insert(k, (proto_id, buffer));
        emit_to_service_handle(proto_id, sent, out);
        report_handler(proto_id, result, None, out);
        result
    }

    /// Hands the queue of the session-level handler at index `k` to its
    /// channel and reports it if it is blocked or gone.  Nothing happens once
    /// the service has shut down.
    pub fn flush_session_handle(&mut self, k: usize, capacity: usize, connected: bool, out: &mut Vec<Output>) -> (r: SendResult)
        requires
            old(self).wf(),
            k < old(self).session_handles().len(),
        ensures
            final(self).wf(),
            old(self).is_shut_down() ==> *final(self) == *old(self) && final(out)@ == old(out)@ && r == SendResult::Drained,
            !old(self).is_shut_down() ==> {
                let h = old(self).session_handles()[k as int];
                let o = send_outcome(h.2@, capacity as nat, connected);
                &&& r == o.0
                &&& final(self).session_handles().len() == old(self).session_handles().len()
                &&& final(self).session_handles()[k as int].0 == h.0
                &&& final(self).session_handles()[k as int].1 == h.1
                &&& final(self).session_handles()[k as int].2@ == o.2
                &&& forall|j: int| 0 <= j < old(self).session_handles().len() && j != k ==> final(self).session_handles()[j] == old(self).session_handles()[j]
                &&& final(out)@ == old(out)@ + to_session_handle_outputs(h.0, h.1, o.1) + handler_report(h.1, o.0, Some(h.0))
                &&& old(self).same_but_session_handles(&*final(self))
            },
    {
        if self.shutdown {
            return SendResult::Drained;
        }
        let ghost h0 = self.session_proto_handles@;
        let (id, proto_id, mut buffer) = self.session_proto_handles.remove(k);
        let (result, sent) = buffer.try_send(capacity, connected);
        self.session_proto_handles.insert(k, (id, proto_id, buffer));
        proof {
            let h1 = self.session_proto_handles@;
            assert forall|j: int| 0 <= j < h1.len() implies #[trigger] h1[j].0 == h0[j].0 && h1[j].1 == h0[j].1 by {
                if j != k {
                    assert(h1[j] == h0[j]);
                }
            }
            assert(handles_keyed(self.sessions@, h1)) by {
                assert forall|j: int| 0 <= j < h1.len() implies has_id(self.sessions@, #[trigger] h1[j].0) by {
                    assert(h1[j].0 == h0[j].0);
                    assert(has_id(self.sessions@, h0[j].0));
                }
                assert forall|a: int, b: int| 0 <= a < h1.len() && 0 <= b < h1.len() && a != b implies (h1[a].0, h1[a].1) != (h1[b].0, h1[b].1) by {
                    assert(h1[a].0 == h0[a].0 && h1[a].1 == h0[a].1);
                    assert(h1[b].0 == h0[b].0 && h1[b].1 == h0[b].1);
                }
            }
        }
        emit_to_session_handle(id, proto_id, sent, out);
        report_handler(proto_id, result, Some(id), out);
        result
    }
}


/// The run state after an attempt in flight ends (when `ends`).
pub open spec fn pending_after(s: State, ends: bool) -> State {
    if ends {
        State { pending: if s.pending > 0 { (s.pending - 1) as u32 } else { 0 }, ..s }
    } else {
        s
    }
}

/// `o` reports that protocol selection (of `name`) failed on session `id`.
pub open spec fn is_select_error(o: Output, id: SessionId, name: Option<String>) -> bool {
    match o {
        Output::Error(ServiceError::ProtocolSelectError { proto_name, session_context }) =>
            session_context.id == id && proto_name == name,
        _ => false,
    }
}

/// `o` reports that session `id` timed out.
pub open spec fn is_timeout(o: Output, id: SessionId) -> bool {
    match o {
        Output::Error(ServiceError::SessionTimeout { session_context }) => session_context.id == id,
        _ => false,
    }
}

/// `o` reports the multiplexer error `message` on session `id`.
pub open spec fn is_muxer_error(o: Output, id: SessionId, message: String) -> bool {
    match o {
        Output::Error(ServiceError::MuxerError { session_context, error }) => session_context.id == id
            && error == message,
        _ => false,
    }
}

impl Service {
    /// Whether the service listens on `a`.
    pub closed spec fn listening(&self, a: Seq<(u32, Seq<u8>)>) -> bool {
        exists|i: int| 0 <= i < self.listens@.len() && self.listens@[i]@ == a
    }

    /// Only the published listens and the handler queues may differ.
    pub closed spec fn same_but_listens_and_handles(&self, t: &Service) -> bool {
        *t == (Service {
            context_listens: t.context_listens,
            service_proto_handles: t.service_proto_handles,
            session_proto_handles: t.session_proto_handles,
            ..*self
        })
    }

    /// The configuration.
    pub closed spec fn configuration(&self) -> ServiceConfig {
        self.config
    }

    /// Only the configuration may differ.
    pub closed spec fn same_but_config(&self, t: &Service) -> bool {
        *t == (Service { config: t.config, ..*self })
    }

    /// Only the run state may differ.
    pub closed spec fn same_but_state(&self, t: &Service) -> bool {
        *t == (Service { state: t.state, ..*self })
    }

    /// The dial to `address` failed (in the transport or in the handshake):
    /// the attempt ends and its record goes; `error` is reported.
    fn dial_failed(&mut self, address: Multiaddr, error: DialerErrorKind, out: &mut Vec<Output>)
        requires
            old(self).wf(),
        ensures
            final(self).wf(),
            final(self).state() == pending_after(old(self).state(), true),
            !final(self).dialing(address@),
            forall|b: Seq<(u32, Seq<u8>)>| b != address@ ==> final(self).dialing(b) == old(self).dialing(b),
            final(self).sessions() == old(self).sessions(),
            final(self).session_handles() == old(self).session_handles(),
            final(self).service_handles() == old(self).service_handles(),
            final(self).is_shut_down() == old(self).is_shut_down(),
            final(self).listen_list() == old(self).listen_list(),
            final(out)@ == old(out)@.push(Output::Error(ServiceError::DialerError { address, error })),
    {
        self.state.decrease();
        let _ = self.take_dial_target(&address);
        out.push(Output::Error(ServiceError::DialerError { address, error }));
    }

    /// The index of the listen on `a`, if any.
    fn find_listen(&self, a: &Multiaddr) -> (r: Option<usize>)
        ensures
            r.is_some() ==> r.unwrap() < self.listens@.len() && self.listens@[r.unwrap() as int]@ == a@,
            r.is_none() ==> !self.listening(a@),
    {
        let mut i: usize = 0;
        while i < self.listens.len()
            invariant
                0 <= i <= self.listens@.len(),
                forall|j: int| 0 <= j < i ==> self.listens@[j]@ != a@,
            decreases self.listens@.len() - i,
        {
            if self.listens[i].same_as(a) {
                return Some(i);
            }
            i = i + 1;
        }
        None
    }

    /// A listen failed: reported; a running listen on it is closed and
    /// reported, else the attempt ends.
    fn listen_failed(&mut self, address: Multiaddr, error: String, out: &mut Vec<Output>)
        requires
            old(self).wf(),
        ensures
            final(self).wf(),
            final(self).sessions() == old(self).sessions(),
            final(self).session_handles() == old(self).session_handles(),
            final(self).service_handles() == old(self).service_handles(),
            final(self).is_shut_down() == old(self).is_shut_down(),
            !final(self).listening(address@),
            forall|b: Seq<(u32, Seq<u8>)>| b != address@ ==> final(self).listening(b) == old(self).listening(b),
            final(out)@.len() >= 1,
            final(out)@[old(out)@.len() as int] matches Output::Error(ServiceError::ListenError { address: a, error: ListenErrorKind::TransportError(e) })
                && a@ == address@ && e == error,
            old(self).listening(address@) ==> {
                &&& final(self).state() == old(self).state()
                &&& final(out)@.len() == old(out)@.len() + 2
                &&& final(out)@.last() matches Output::Event(ServiceEvent::ListenClose { address: a }) && a@ == address@
            },
            !old(self).listening(address@) ==> {
                &&& final(self).state() == pending_after(old(self).state(), true)
                &&& final(out)@.len() == old(out)@.len() + 1
            },
            final(out)@.take(old(out)@.len() as int) == old(out)@,
    {
        let reported = address.clone();
        out.push(Output::Error(ServiceError::ListenError { address: reported, error: ListenErrorKind::TransportError(error) }));
        match self.find_listen(&address) {
            Some(i) => {
                let ghost l0 = self.listens@;
                let closed = self.listens.remove(i);
                proof {
                    assert forall|b: Seq<(u32, Seq<u8>)>| b != address@ implies self.listening(b) == old(self).listening(b) by {
                        if old(self).listening(b) {
                            let k = choose|k: int| 0 <= k < l0.len() && l0[k]@ == b;
                            if k < i {
                                assert(self.listens@[k] == l0[k]);
                            } else {
                                assert(self.listens@[k - 1] == l0[k]);
                            }
                        }
                        if self.listening(b) {
                            let k = choose|k: int| 0 <= k < self.listens@.len() && self.listens@[k]@ == b;
                            if k < i {
                                assert(self.listens@[k] == l0[k]);
                            } else {
                                assert(self.listens@[k] == l0[k + 1]);
                            }
                        }
                    }
                    assert(!self.listening(address@)) by {
                        if self.listening(address@) {
                            let k = choose|k: int| 0 <= k < self.listens@.len() && self.listens@[k]@ == address@;
                            if k < i {
                                assert(self.listens@[k] == l0[k]);
                            } else {
                                assert(self.listens@[k] == l0[k + 1]);
                            }
                        }
                    }
                }
                out.push(Output::Event(ServiceEvent::ListenClose { address: closed }));
            },
            None => {
                self.state.decrease();
            },
        }
        assert(out@.take(old(out)@.len() as int) =~= old(out)@);
    }

    /// Records a listener that the transport bound on `address`: reported,
    /// recorded, the handlers learn the new listens, and accepting starts.
    pub fn listen(&mut self, address: Multiaddr, out: &mut Vec<Output>)
        requires
            old(self).wf(),
        ensures
            final(self).wf(),
            final(self).sessions() == old(self).sessions(),
            final(self).is_shut_down() == old(self).is_shut_down(),
            final(self).state() == old(self).state(),
            listens_published(*old(self), *final(self)),
            final(self).listening(address@),
            forall|b: Seq<(u32, Seq<u8>)>| b != address@ ==> final(self).listening(b) == old(self).listening(b),
            final(out)@.len() == old(out)@.len() + 2,
            final(out)@.take(old(out)@.len() as int) == old(out)@,
            final(out)@[old(out)@.len() as int] matches Output::Event(ServiceEvent::ListenStarted { address: a }) && a@ == address@,
            final(out)@.last() matches Output::SpawnListener { address: a } && a@ == address@,
    {
        out.push(Output::Event(ServiceEvent::ListenStarted { address: address.clone() }));
        if self.find_listen(&address).is_none() {
            self.listens.push(address.clone());
            proof {
                let l = self.listens@;
                assert(l[l.len() - 1]@ == address@);
                assert forall|b: Seq<(u32, Seq<u8>)>| b != address@ implies self.listening(b) == old(self).listening(b) by {
                    if old(self).listening(b) {
                        let k = choose|k: int| 0 <= k < old(self).listens@.len() && old(self).listens@[k]@ == b;
                        assert(l[k] == old(self).listens@[k]);
                    }
                    if self.listening(b) {
                        let k = choose|k: int| 0 <= k < l.len() && l[k]@ == b;
                        assert(k < l.len() - 1);
                        assert(l[k] == old(self).listens@[k]);
                    }
                }
                assert forall|k: int, j: int| 0 <= k < l.len() && 0 <= j < l.len() && k != j implies l[k]@ != l[j]@ by {
                    if k < l.len() - 1 && j < l.len() - 1 {
                        assert(l[k] == old(self).listens@[k] && l[j] == old(self).listens@[j]);
                    } else if k < l.len() - 1 {
                        assert(l[k] == old(self).listens@[k]);
                    } else {
                        assert(l[j] == old(self).listens@[j]);
                    }
                }
            }
        }
        let ghost s1 = *self;
        assert(s1.published_listens() == old(self).published_listens());
        assert(s1.service_handles() == old(self).service_handles());
        assert(s1.session_handles() == old(self).session_handles());
        self.try_update_listens();
        assert(self.listens == s1.listens);
        assert(self.state == s1.state);
        out.push(Output::SpawnListener { address });
        assert(out@.take(old(out)@.len() as int) =~= old(out)@);
    }
}

/// What handling the session event `e` does to the service `s`, giving `t`,
/// and to the outputs.
pub open spec fn session_event_post(s: Service, e: SessionEvent, t: Service, before: Seq<Output>, after: Seq<Output>) -> bool {
    &&& extends(before, after)
    &&& s.is_shut_down() == t.is_shut_down()
    &&& s.state().shutdown ==> t.state().shutdown
    &&& match e {
        SessionEvent::SessionClose { id } => session_close_post(s, id, Source::Internal, t, before, after),
        SessionEvent::HandshakeSuccess { public_key, address, ty, listen_address } => exists|m: Service| {
            &&& s.same_but_state(&m)
            &&& m.state() == pending_after(s.state(), ty == SessionType::Outbound)
            &&& m.wf()
            &&& m.sessions() == s.sessions()
            &&& m.session_handles() == s.session_handles()
            &&& m.next_id() == s.next_id()
            &&& m.protocols() == s.protocols()
            &&& m.max_connections() == s.max_connections()
            &&& m.is_shut_down() == s.is_shut_down()
            &&& forall|a: Seq<(u32, Seq<u8>)>| m.dialing(a) == s.dialing(a) && m.dial_target(a) == s.dial_target(a)
            &&& if m.spec_reached_limit() {
                t == m && after == before.push(Output::RejectConnection)
            } else {
                session_open_post(m, public_key, address@, ty, listen_address, t, before, after)
            }
        },
        SessionEvent::HandshakeError { ty, address, error } => if ty == SessionType::Outbound {
            &&& t.state() == pending_after(s.state(), true)
            &&& !t.dialing(address@)
            &&& forall|b: Seq<(u32, Seq<u8>)>| b != address@ ==> t.dialing(b) == s.dialing(b)
            &&& t.sessions() == s.sessions()
            &&& t.session_handles() == s.session_handles()
            &&& after == before.push(Output::Error(ServiceError::DialerError { address, error: DialerErrorKind::HandshakeError(error) }))
        } else {
            t == s && after == before
        },
        SessionEvent::DialError { address, error } => {
            &&& t.state() == pending_after(s.state(), true)
            &&& !t.dialing(address@)
            &&& forall|b: Seq<(u32, Seq<u8>)>| b != address@ ==> t.dialing(b) == s.dialing(b)
            &&& t.sessions() == s.sessions()
            &&& t.session_handles() == s.session_handles()
            &&& after == before.push(Output::Error(ServiceError::DialerError { address, error: DialerErrorKind::TransportError(error) }))
        },
        SessionEvent::ProtocolMessage { id, proto_id, data } => t == s && if s.wants_events(proto_id) && s.has_session(id) {
            after.len() == before.len() + 1 && after.drop_last() == before && is_proto_received(after.last(), id, proto_id, data)
        } else {
            after == before
        },
        SessionEvent::ProtocolOpen { id, proto_id, version } => t == s && if s.wants_events(proto_id) && s.has_session(id) {
            after.len() == before.len() + 1 && after.drop_last() == before && is_proto_connected(after.last(), id, proto_id, version)
        } else {
            after == before
        },
        SessionEvent::ProtocolClose { id, proto_id } => {
            &&& s.same_but_session_handles(&t)
            &&& t.session_handles() == handles_after_close(s.session_handles(), id, Some(proto_id))
            &&& if s.wants_events(proto_id) && s.has_session(id) {
                after.len() == before.len() + 1 && after.drop_last() == before && is_proto_disconnected(after.last(), id, proto_id)
            } else {
                after == before
            }
        },
        SessionEvent::ProtocolSelectError { id, proto_name } => t == s && if s.has_session(id) {
            after.len() == before.len() + 1 && after.drop_last() == before && is_select_error(after.last(), id, proto_name)
        } else {
            after == before
        },
        SessionEvent::SessionTimeout { id } => t == s && if s.has_session(id) {
            after.len() == before.len() + 1 && after.drop_last() == before && is_timeout(after.last(), id)
        } else {
            after == before
        },
        SessionEvent::MuxerError { id, error } => t == s && if s.has_session(id) {
            after.len() == before.len() + 1 && after.drop_last() == before && is_muxer_error(after.last(), id, error)
        } else {
            after == before
        },
        SessionEvent::ProtocolError { id, proto_id, error } => t == s && after == before.push(
            Output::Error(ServiceError::ProtocolError { id, proto_id, error }),
        ),
        SessionEvent::ListenError { address, error } => {
            &&& t.sessions() == s.sessions()
            &&& !t.listening(address@)
            &&& forall|b: Seq<(u32, Seq<u8>)>| b != address@ ==> t.listening(b) == s.listening(b)
            &&& t.state() == pending_after(s.state(), !s.listening(address@))
            &&& after.len() == before.len() + if s.listening(address@) { 2int } else { 1int }
            &&& after[before.len() as int] matches Output::Error(ServiceError::ListenError { address: a, error: ListenErrorKind::TransportError(e) })
                && a@ == address@ && e == error
            &&& s.listening(address@) ==> (after.last() matches Output::Event(ServiceEvent::ListenClose { address: a }) && a@ == address@)
        },
        SessionEvent::ListenStart { listen_address } => {
            &&& t.sessions() == s.sessions()
            &&& t.listening(listen_address@)
            &&& forall|b: Seq<(u32, Seq<u8>)>| b != listen_address@ ==> t.listening(b) == s.listening(b)
            &&& t.state() == pending_after(s.state(), true)
            &&& listens_published(s, t)
            &&& after.len() == before.len() + 2
            &&& after[before.len() as int] matches Output::Event(ServiceEvent::ListenStarted { address: a }) && a@ == listen_address@
            &&& after.last() matches Output::SpawnListener { address: a } && a@ == listen_address@
        },
        SessionEvent::ProtocolHandleError { proto_id, error } => {
            &&& after[before.len() as int] == Output::Error(ServiceError::ProtocolHandleError { proto_id, error })
            &&& shutdown_post(s, false, t, before.push(after[before.len() as int]), after)
        },
    }
}

impl Service {
    /// Handles one event reported by a session, a handshake, a dial or listen
    /// attempt, or a protocol handler (see `session_event_post`).
    pub fn handle_session_event(&mut self, event: SessionEvent, out: &mut Vec<Output>)
        requires
            old(self).wf(),
        ensures
            final(self).wf(),
            session_event_post(*old(self), event, *final(self), old(out)@, final(out)@),
    {
        match event {
            SessionEvent::SessionClose { id } => {
                self.session_close(id, Source::Internal, out);
                assert(out@.take(old(out)@.len() as int) =~= old(out)@);
                assert(extends(old(out)@, out@));
                assert(old(self).is_shut_down() == self.is_shut_down());
                assert(session_close_post(*old(self), id, Source::Internal, *self, old(out)@, out@));
            },
            SessionEvent::HandshakeSuccess { public_key, address, ty, listen_address } => {
                if ty.is_outbound() {
                    self.state.decrease();
                }
                let ghost m = *self;
                assert(m.wf());
                let ghost key0 = public_key;
                let ghost addr0 = address@;
                let ghost listen0 = listen_address;
                if !self.reached_max_connection_limit() {
                    self.session_open(public_key, address, ty, listen_address, out);
                    assert(session_open_post(m, key0, addr0, ty, listen0, *self, old(out)@, out@));
                } else {
                    out.push(Output::RejectConnection);
                }
                assert(old(self).same_but_state(&m));
                assert(m.state() == pending_after(old(self).state(), ty == SessionType::Outbound));
            },
            SessionEvent::HandshakeError { ty, address, error } => {
                if ty.is_outbound() {
                    self.dial_failed(address, DialerErrorKind::HandshakeError(error), out);
                }
            },
            SessionEvent::DialError { address, error } => {
                self.dial_failed(address, DialerErrorKind::TransportError(error), out);
            },
            SessionEvent::ProtocolMessage { id, proto_id, data } => self.protocol_message(id, proto_id, data, out),
            SessionEvent::ProtocolOpen { id, proto_id, version } => self.protocol_open(id, proto_id, version, Source::Internal, out),
            SessionEvent::ProtocolClose { id, proto_id } => self.protocol_close(id, proto_id, Source::Internal, out),
            SessionEvent::ProtocolSelectError { id, proto_name } => {
                if let Some(j) = self.find_session(id) {
                    let session_context = self.sessions[j].context.copy();
                    out.push(Output::Error(ServiceError::ProtocolSelectError { proto_name, session_context }));
                    assert(out@.drop_last() =~= old(out)@);
                }
            },
            SessionEvent::SessionTimeout { id } => {
                if let Some(j) = self.find_session(id) {
                    let session_context = self.sessions[j].context.copy();
                    out.push(Output::Error(ServiceError::SessionTimeout { session_context }));
                    assert(out@.drop_last() =~= old(out)@);
                }
            },
            SessionEvent::MuxerError { id, error } => {
                if let Some(j) = self.find_session(id) {
                    let session_context = self.sessions[j].context.copy();
                    out.push(Output::Error(ServiceError::MuxerError { session_context, error }));
                    assert(out@.drop_last() =~= old(out)@);
                }
            },
            SessionEvent::ProtocolError { id, proto_id, error } => {
                out.push(Output::Error(ServiceError::ProtocolError { id, proto_id, error }));
            },
            SessionEvent::ListenError { address, error } => self.listen_failed(address, error, out),
            SessionEvent::ListenStart { listen_address } => self.listen_started(listen_address, out),
            SessionEvent::ProtocolHandleError { proto_id, error } => {
                out.push(Output::Error(ServiceError::ProtocolHandleError { proto_id, error }));
                let ghost mid = out@;
                self.shutdown(false, out);
                assert(out@[old(out)@.len() as int] == mid.last()) by {
                    assert(out@.take(mid.len() as int)[old(out)@.len() as int] == mid[old(out)@.len() as int]);
                }
                assert(mid == old(out)@.push(out@[old(out)@.len() as int]));
                assert(out@.take(old(out)@.len() as int) =~= old(out)@) by {
                    assert(out@.take(mid.len() as int).take(old(out)@.len() as int) =~= out@.take(old(out)@.len() as int));
                }
            },
        }
        assert(out@.take(old(out)@.len() as int) =~= old(out)@);
    }
}

/// The run state after one more attempt starts.
pub open spec fn pending_started(s: State) -> State {
    State { pending: if s.pending < u32::MAX { (s.pending + 1) as u32 } else { s.pending }, ..s }
}

/// The high-priority commands that open the protocols `ids`, in order.
pub open spec fn open_commands(ids: Seq<ProtocolId>) -> Seq<(Priority, SessionCommand)> {
    ids.map_values(|p: ProtocolId| (Priority::High, SessionCommand::ProtocolOpen { proto_id: p }))
}

/// The protocols that a `ProtocolOpen` task for `target` asks to open.
pub open spec fn open_request(p: Seq<ProtocolMeta>, target: TargetProtocol) -> Seq<ProtocolId> {
    match target {
        TargetProtocol::All => protocol_ids(p),
        TargetProtocol::Single(id) => seq![id],
        TargetProtocol::Multi(ids) => ids@,
    }
}

/// The index of the service-level handler of `proto_id` in `h`, if any.
pub open spec fn service_handle_at(h: Seq<(ProtocolId, Buffer<ServiceProtocolEvent>)>, proto_id: ProtocolId, k: int) -> bool {
    0 <= k < h.len() && h[k].0 == proto_id
}

/// The index of the handler of session `id` and `proto_id` in `h`, if any.
pub open spec fn session_handle_at(h: Seq<(SessionId, ProtocolId, Buffer<SessionProtocolEvent>)>, id: SessionId, proto_id: ProtocolId, k: int) -> bool {
    0 <= k < h.len() && h[k].0 == id && h[k].1 == proto_id
}

/// Appending `e` to the queue of the service-level handler of `proto_id`,
/// if there is one, gives `t` from `s`.
pub open spec fn service_handle_event_post(s: Service, proto_id: ProtocolId, e: ServiceProtocolEvent, t: Service) -> bool {
    &&& s.same_but_service_handles(&t)
    &&& t.service_handles().len() == s.service_handles().len()
    &&& forall|k: int| 0 <= k < s.service_handles().len() ==> #[trigger] t.service_handles()[k].0 == s.service_handles()[k].0
    &&& forall|k: int| service_handle_at(s.service_handles(), proto_id, k) ==> #[trigger] t.service_handles()[k].1@ == s.service_handles()[k].1@.push(e)
    &&& forall|k: int| 0 <= k < s.service_handles().len() && !service_handle_at(s.service_handles(), proto_id, k) ==> #[trigger] t.service_handles()[k] == s.service_handles()[k]
}

/// Appending `e` to the queue of the handler of session `id` and `proto_id`,
/// if there is one, gives `t` from `s`.
pub open spec fn session_handle_event_post(s: Service, id: SessionId, proto_id: ProtocolId, e: SessionProtocolEvent, t: Service) -> bool {
    &&& s.same_but_session_handles(&t)
    &&& t.session_handles().len() == s.session_handles().len()
    &&& forall|k: int| 0 <= k < s.session_handles().len() ==> #[trigger] t.session_handles()[k].0 == s.session_handles()[k].0 && t.session_handles()[k].1 == s.session_handles()[k].1
    &&& forall|k: int| session_handle_at(s.session_handles(), id, proto_id, k) ==> #[trigger] t.session_handles()[k].2@ == s.session_handles()[k].2@.push(e)
    &&& forall|k: int| 0 <= k < s.session_handles().len() && !session_handle_at(s.session_handles(), id, proto_id, k) ==> #[trigger] t.session_handles()[k] == s.session_handles()[k]
}

/// What handling the user task `task` at `priority` does to the service `s`,
/// giving `t`, and to the outputs.
pub open spec fn service_task_post(s: Service, task: ServiceTask, priority: Priority, t: Service, before: Seq<Output>, after: Seq<Output>) -> bool {
    &&& extends(before, after)
    &&& s.is_shut_down() == t.is_shut_down()
    &&& s.state().shutdown ==> t.state().shutdown
    &&& match task {
        ServiceTask::ProtocolMessage { target, proto_id, data } => {
            &&& after == before
            &&& s.unchanged_but_sessions(&t)
            &&& t.session_handles() == s.session_handles()
            &&& message_post(s.sessions(), t.sessions(), target, priority, proto_id, bytes_content(data))
        },
        ServiceTask::Dial { address, target } => if s.dialing(address@) {
            t == s && after == before
        } else {
            &&& t.dialing(address@)
            &&& t.dial_target(address@) == target
            &&& forall|b: Seq<(u32, Seq<u8>)>| b != address@ ==> t.dialing(b) == s.dialing(b)
            &&& t.state() == pending_started(s.state())
            &&& t.sessions() == s.sessions()
            &&& after.len() == before.len() + 1
            &&& after.last() matches Output::Dial { address: a } && a@ == address@
        },
        ServiceTask::Listen { address } => if s.listening(address@) {
            t == s && after == before
        } else {
            &&& s.same_but_state(&t)
            &&& t.state() == pending_started(s.state())
            &&& after == before.push(Output::Listen { address })
        },
        ServiceTask::Disconnect { session_id } => session_close_post(s, session_id, Source::External, t, before, after),
        ServiceTask::SetProtocolNotify { proto_id, interval_ms, token } => after == before
            && service_handle_event_post(s, proto_id, ServiceProtocolEvent::SetNotify { interval_ms, token }, t),
        ServiceTask::RemoveProtocolNotify { proto_id, token } => after == before
            && service_handle_event_post(s, proto_id, ServiceProtocolEvent::RemoveNotify { token }, t),
        ServiceTask::SetProtocolSessionNotify { session_id, proto_id, interval_ms, token } => after == before
            && session_handle_event_post(s, session_id, proto_id, SessionProtocolEvent::SetNotify { interval_ms, token }, t),
        ServiceTask::RemoveProtocolSessionNotify { session_id, proto_id, token } => after == before
            && session_handle_event_post(s, session_id, proto_id, SessionProtocolEvent::RemoveNotify { token }, t),
        ServiceTask::ProtocolOpen { session_id, target } => {
            &&& after == before
            &&& s.unchanged_but_sessions(&t)
            &&& t.session_handles() == s.session_handles()
            &&& t.sessions().len() == s.sessions().len()
            &&& forall|j: int| 0 <= j < s.sessions().len() ==> #[trigger] t.sessions()[j].context == s.sessions()[j].context
            &&& forall|j: int| 0 <= j < s.sessions().len() ==> #[trigger] t.sessions()[j].buffer@ == if s.sessions()[j].context.id == session_id {
                s.sessions()[j].buffer@ + open_commands(open_request(s.protocols(), target))
            } else {
                s.sessions()[j].buffer@
            }
        },
        ServiceTask::ProtocolClose { session_id, proto_id } => after == before && command_queued(
            s,
            session_id,
            SessionCommand::ProtocolClose { proto_id },
            t,
        ),
        ServiceTask::Shutdown(quick) => shutdown_post(s, quick, t, before, after),
    }
}

impl Service {
    fn find_service_handle(&self, proto_id: ProtocolId) -> (r: Option<usize>)
        ensures
            r.is_some() ==> service_handle_at(self.service_proto_handles@, proto_id, r.unwrap() as int),
            r.is_none() ==> forall|k: int| !service_handle_at(self.service_proto_handles@, proto_id, k),
    {
        let mut i: usize = 0;
        while i < self.service_proto_handles.len()
            invariant
                0 <= i <= self.service_proto_handles@.len(),
                forall|k: int| 0 <= k < i ==> self.service_proto_handles@[k].0 != proto_id,
            decreases self.service_proto_handles@.len() - i,
        {
            if self.service_proto_handles[i].0 == proto_id {
                return Some(i);
            }
            i = i + 1;
        }
        None
    }

    fn find_session_handle(&self, id: SessionId, proto_id: ProtocolId) -> (r: Option<usize>)
        ensures
            r.is_some() ==> session_handle_at(self.session_proto_handles@, id, proto_id, r.unwrap() as int),
            r.is_none() ==> forall|k: int| !session_handle_at(self.session_proto_handles@, id, proto_id, k),
    {
        let mut i: usize = 0;
        while i < self.session_proto_handles.len()
            invariant
                0 <= i <= self.session_proto_handles@.len(),
                forall|k: int| 0 <= k < i ==> !(self.session_proto_handles@[k].0 == id && self.session_proto_handles@[k].1 == proto_id),
            decreases self.session_proto_handles@.len() - i,
        {
            if self.session_proto_handles[i].0 == id && self.session_proto_handles[i].1 == proto_id {
                return Some(i);
            }
            i = i + 1;
        }
        None
    }

    fn service_handle_event(&mut self, proto_id: ProtocolId, e: ServiceProtocolEvent)
        requires
            old(self).wf(),
        ensures
            final(self).wf(),
            service_handle_event_post(*old(self), proto_id, e, *final(self)),
    {
        if let Some(k) = self.find_service_handle(proto_id) {
            self.push_to_service_handle(k, e);
            assert forall|j: int| service_handle_at(old(self).service_proto_handles@, proto_id, j) implies j == k by {}
        }
    }

    fn session_handle_event(&mut self, id: SessionId, proto_id: ProtocolId, e: SessionProtocolEvent)
        requires
            old(self).wf(),
        ensures
            final(self).wf(),
            session_handle_event_post(*old(self), id, proto_id, e, *final(self)),
    {
        if let Some(k) = self.find_session_handle(id, proto_id) {
            self.push_to_session_handle(k, e);
            assert forall|j: int| session_handle_at(old(self).session_proto_handles@, id, proto_id, j) implies j == k by {}
        }
    }

    /// Asks session `session_id`, when open, to open each protocol of `ids`.
    fn open_protocols(&mut self, session_id: SessionId, ids: &Vec<ProtocolId>)
        requires
            old(self).wf(),
        ensures
            final(self).wf(),
            old(self).unchanged_but_sessions(&*final(self)),
            final(self).session_handles() == old(self).session_handles(),
            final(self).sessions().len() == old(self).sessions().len(),
            forall|j: int| 0 <= j < old(self).sessions().len() ==> #[trigger] final(self).sessions()[j].context == old(self).sessions()[j].context,
            forall|j: int| 0 <= j < old(self).sessions().len() ==> #[trigger] final(self).sessions()[j].buffer@ == if old(self).sessions()[j].context.id == session_id {
                old(self).sessions()[j].buffer@ + open_commands(ids@)
            } else {
                old(self).sessions()[j].buffer@
            },
    {
        let ghost s0 = *self;
        let mut i: usize = 0;
        while i < ids.len()
            invariant
                self.wf(),
                s0 == *old(self),
                s0.unchanged_but_sessions(&*self),
                self.session_proto_handles@ == s0.session_proto_handles@,
                0 <= i <= ids@.len(),
                self.sessions@.len() == s0.sessions@.len(),
                forall|j: int| 0 <= j < s0.sessions@.len() ==> #[trigger] self.sessions@[j].context == s0.sessions@[j].context,
                forall|j: int| 0 <= j < s0.sessions@.len() ==> #[trigger] self.sessions@[j].buffer@ == if s0.sessions@[j].context.id == session_id {
                    s0.sessions@[j].buffer@ + open_commands(ids@.take(i as int))
                } else {
                    s0.sessions@[j].buffer@
                },
            decreases ids@.len() - i,
        {
            let ghost s1 = *self;
            self.queue_command(session_id, SessionCommand::ProtocolOpen { proto_id: ids[i] });
            proof {
                assert(open_commands(ids@.take(i as int + 1)) =~= open_commands(ids@.take(i as int)).push((Priority::High, SessionCommand::ProtocolOpen { proto_id: ids@[i as int] })));
                assert forall|j: int| 0 <= j < s0.sessions@.len() implies #[trigger] self.sessions@[j].buffer@ == if s0.sessions@[j].context.id == session_id {
                    s0.sessions@[j].buffer@ + open_commands(ids@.take(i as int + 1))
                } else {
                    s0.sessions@[j].buffer@
                } by {
                    assert(s1.sessions@[j].context == s0.sessions@[j].context);
                    if s0.sessions@[j].context.id == session_id {
                        assert((s0.sessions@[j].buffer@ + open_commands(ids@.take(i as int))).push((Priority::High, SessionCommand::ProtocolOpen { proto_id: ids@[i as int] })) =~= s0.sessions@[j].buffer@ + open_commands(ids@.take(i as int + 1)));
                    }
                }
            }
            i = i + 1;
        }
        assert(ids@.take(i as int) =~= ids@);
    }

    /// Handles one user task taken at `priority` (see `service_task_post`).
    pub fn handle_service_task(&mut self, task: ServiceTask, priority: Priority, out: &mut Vec<Output>)
        requires
            old(self).wf(),
        ensures
            final(self).wf(),
            service_task_post(*old(self), task, priority, *final(self), old(out)@, final(out)@),
    {
        let ghost task0 = task;
        match task {
            ServiceTask::ProtocolMessage { target, proto_id, data } => {
                self.handle_message(target, proto_id, priority, data);
                assert(old(self).unchanged_but_sessions(&*self));
                assert(service_task_post(*old(self), task0, priority, *self, old(out)@, out@));
            },
            ServiceTask::Dial { address, target } => {
                if !self.is_dialing(&address) {
                    let ghost d0 = self.dial_protocols@;
                    self.dial_protocols.push((address.clone(), target));
                    proof {
                        let d = self.dial_protocols@;
                        assert(d[d.len() - 1].0@ == address@);
                        assert(self.dialing(address@));
                        assert forall|k: int| 0 <= k < d0.len() implies d0[k].0@ != address@ by {
                            if d0[k].0@ == address@ {
                                assert(old(self).dialing(address@));
                            }
                        }
                        let i = choose|i: int| 0 <= i < d.len() && d[i].0@ == address@;
                        assert(i == d.len() - 1);
                        assert(self.dial_target(address@) == target);
                        assert forall|b: Seq<(u32, Seq<u8>)>| b != address@ implies self.dialing(b) == old(self).dialing(b) by {
                            if old(self).dialing(b) {
                                let k = choose|k: int| 0 <= k < d0.len() && d0[k].0@ == b;
                                assert(d[k] == d0[k]);
                            }
                            if self.dialing(b) {
                                let k = choose|k: int| 0 <= k < d.len() && d[k].0@ == b;
                                assert(k < d.len() - 1);
                                assert(d[k] == d0[k]);
                            }
                        }
                        assert forall|k: int, l: int| 0 <= k < d.len() && 0 <= l < d.len() && k != l implies d[k].0@ != d[l].0@ by {
                            if k < d.len() - 1 && l < d.len() - 1 {
                                assert(d[k] == d0[k] && d[l] == d0[l]);
                            } else if k < d.len() - 1 {
                                assert(d[k] == d0[k]);
                            } else {
                                assert(d[l] == d0[l]);
                            }
                        }
                    }
                    let ghost d1 = self.dial_protocols;
                    self.state.increase();
                    out.push(Output::Dial { address });
                    assert(out@.take(old(out)@.len() as int) =~= old(out)@);
                    assert(self.dial_protocols == d1);
                }
                assert(service_task_post(*old(self), task0, priority, *self, old(out)@, out@));
            },
            ServiceTask::Listen { address } => {
                if self.find_listen(&address).is_none() {
                    self.state.increase();
                    out.push(Output::Listen { address });
                    assert(old(self).same_but_state(&*self));
                }
                assert(out@.take(old(out)@.len() as int) =~= old(out)@);
                assert(service_task_post(*old(self), task0, priority, *self, old(out)@, out@));
            },
            ServiceTask::Disconnect { session_id } => {
                self.session_close(session_id, Source::External, out);
            },
            ServiceTask::SetProtocolNotify { proto_id, interval_ms, token } => {
                self.service_handle_event(proto_id, ServiceProtocolEvent::SetNotify { interval_ms, token });
            },
            ServiceTask::RemoveProtocolNotify { proto_id, token } => {
                self.service_handle_event(proto_id, ServiceProtocolEvent::RemoveNotify { token });
            },
            ServiceTask::SetProtocolSessionNotify { session_id, proto_id, interval_ms, token } => {
                self.session_handle_event(session_id, proto_id, SessionProtocolEvent::SetNotify { interval_ms, token });
            },
            ServiceTask::RemoveProtocolSessionNotify { session_id, proto_id, token } => {
                self.session_handle_event(session_id, proto_id, SessionProtocolEvent::RemoveNotify { token });
            },
            ServiceTask::ProtocolOpen { session_id, target } => {
                let ids = match target {
                    TargetProtocol::All => self.target_protocols(&TargetProtocol::All),
                    TargetProtocol::Single(id) => vec![id],
                    TargetProtocol::Multi(ids) => ids,
                };
                assert(ids@ =~= open_request(self.protocol_configs@, target));
                self.open_protocols(session_id, &ids);
            },
            ServiceTask::ProtocolClose { session_id, proto_id } => {
                self.protocol_close(session_id, proto_id, Source::External, out);
            },
            ServiceTask::Shutdown(quick) => {
                self.shutdown(quick, out);
            },
        }
        assert(out@.take(old(out)@.len() as int) =~= old(out)@);
    }

    /// Whether a dial to `address` is in flight.
    fn is_dialing(&self, address: &Multiaddr) -> (r: bool)
        ensures
            r == self.dialing(address@),
    {
        let mut i: usize = 0;
        while i < self.dial_protocols.len()
            invariant
                0 <= i <= self.dial_protocols@.len(),
                forall|j: int| 0 <= j < i ==> self.dial_protocols@[j].0@ != address@,
            decreases self.dial_protocols@.len() - i,
        {
            if self.dial_protocols[i].0.same_as(address) {
                return true;
            }
            i = i + 1;
        }
        false
    }
}

impl Service {
    /// A service over the protocols `protocol_configs` (whose ids are
    /// unique), with nothing open yet.
    pub fn new(protocol_configs: Vec<ProtocolMeta>, forever: bool, config: ServiceConfig) -> (r: Service)
        requires
            protocol_ids_unique(protocol_configs@),
        ensures
            r.wf(),
            r.protocols() == protocol_configs@,
            r.sessions().len() == 0,
            r.session_handles().len() == 0,
            r.service_handles().len() == 0,
            r.listen_list().len() == 0,
            r.state() == (State { forever, pending: 0, shutdown: false }),
            !r.is_shut_down(),
            !r.is_initialized(),
            r.next_id() == 0,
            r.send_limit() == config.send_event_size,
            r.recv_limit() == config.recv_event_size,
            r.max_connections() == config.max_connection_number,
            forall|a: Seq<(u32, Seq<u8>)>| !r.dialing(a) && !r.listening(a),
    {
        Service {
            protocol_configs,
            sessions: Vec::new(),
            listens: Vec::new(),
            context_listens: Vec::new(),
            dial_protocols: Vec::new(),
            config,
            state: State::new(forever),
            next_session: 0,
            service_proto_handles: Vec::new(),
            session_proto_handles: Vec::new(),
            initialized: false,
            shutdown: false,
            waiting: Vec::new(),
        }
    }

    /// Whether nothing is left to do and the service may end: no listen, no
    /// session, no background task waiting, and a shutdown was asked for (or,
    /// without `forever`, no attempt is in flight).  When so, the shutdown
    /// flag is set.
    pub fn check_termination(&mut self, future_tasks_empty: bool) -> (r: bool)
        requires
            old(self).wf(),
        ensures
            final(self).wf(),
            r == (old(self).listen_list().len() == 0 && old(self).state().spec_is_shutdown()
                && old(self).sessions().len() == 0 && future_tasks_empty),
            r ==> final(self).is_shut_down(),
            old(self).is_shut_down() ==> final(self).is_shut_down(),
            final(self).sessions() == old(self).sessions(),
            final(self).state() == old(self).state(),
            final(self).listen_list() == old(self).listen_list(),
            final(self).session_handles() == old(self).session_handles(),
            final(self).service_handles() == old(self).service_handles(),
            !r ==> *final(self) == *old(self),
    {
        let r = self.listens.len() == 0 && self.state.is_shutdown() && self.sessions.len() == 0
            && future_tasks_empty;
        if r {
            self.shutdown = true;
        }
        r
    }

    /// Sets the longest frame on the wire; it may not be below the stream
    /// window.
    pub fn max_frame_length(self, size: usize) -> (r: Service)
        requires
            size >= self.configuration().max_stream_window_size,
        ensures
            r.configuration() == (ServiceConfig { max_frame_length: size, ..self.configuration() }),
            self.wf() ==> r.wf(),
            self.same_but_config(&r),
    {
        let mut s = self;
        s.config.max_frame_length = size;
        s
    }

    /// Sets the stream window of the multiplexer; it may not exceed the
    /// longest frame.
    pub fn yamux_config(self, max_stream_window_size: u32) -> (r: Service)
        requires
            self.configuration().max_frame_length >= max_stream_window_size,
        ensures
            r.configuration() == (ServiceConfig { max_stream_window_size, ..self.configuration() }),
            self.wf() ==> r.wf(),
            self.same_but_config(&r),
    {
        let mut s = self;
        s.config.max_stream_window_size = max_stream_window_size;
        s
    }
}

impl Service {
    /// A listen attempt bound its listener on `address`: the attempt ends and
    /// the listener is recorded (see `listen`).
    fn listen_started(&mut self, address: Multiaddr, out: &mut Vec<Output>)
        requires
            old(self).wf(),
        ensures
            final(self).wf(),
            final(self).sessions() == old(self).sessions(),
            final(self).is_shut_down() == old(self).is_shut_down(),
            final(self).state() == pending_after(old(self).state(), true),
            listens_published(*old(self), *final(self)),
            final(self).listening(address@),
            forall|b: Seq<(u32, Seq<u8>)>| b != address@ ==> final(self).listening(b) == old(self).listening(b),
            final(out)@.len() == old(out)@.len() + 2,
            final(out)@.take(old(out)@.len() as int) == old(out)@,
            final(out)@[old(out)@.len() as int] matches Output::Event(ServiceEvent::ListenStarted { address: a }) && a@ == address@,
            final(out)@.last() matches Output::SpawnListener { address: a } && a@ == address@,
    {
        self.state.decrease();
        let ghost s1 = *self;
        assert(s1.published_listens() == old(self).published_listens());
        assert(s1.service_handles() == old(self).service_handles());
        assert(s1.session_handles() == old(self).session_handles());
        self.listen(address, out);
        assert forall|b: Seq<(u32, Seq<u8>)>| b != address@ implies s1.listening(b) == old(self).listening(b) by {
            assert(s1.listens == old(self).listens);
        }
    }
}

/// The outputs of flushing the service-level handler queues `h`, in order,
/// with readiness `ready`: for each, the items handed over, then its report.
pub open spec fn service_flush_outputs(
    h: Seq<(ProtocolId, Buffer<ServiceProtocolEvent>)>,
    ready: Seq<(usize, bool)>,
) -> Seq<Output>
    decreases h.len(),
{
    if h.len() == 0 {
        Seq::empty()
    } else {
        let k = h.len() - 1;
        let o = send_outcome(h[k].1@, ready[k].0 as nat, ready[k].1);
        service_flush_outputs(h.drop_last(), ready) + to_service_handle_outputs(h[k].0, o.1)
            + handler_report(h[k].0, o.0, None)
    }
}

/// The outputs of flushing the session-level handler queues `h`, in order,
/// with readiness `ready`: for each, the items handed over, then its report.
pub open spec fn session_handle_flush_outputs(
    h: Seq<(SessionId, ProtocolId, Buffer<SessionProtocolEvent>)>,
    ready: Seq<(usize, bool)>,
) -> Seq<Output>
    decreases h.len(),
{
    if h.len() == 0 {
        Seq::empty()
    } else {
        let k = h.len() - 1;
        let o = send_outcome(h[k].2@, ready[k].0 as nat, ready[k].1);
        session_handle_flush_outputs(h.drop_last(), ready) + to_session_handle_outputs(h[k].0, h[k].1, o.1)
            + handler_report(h[k].1, o.0, Some(h[k].0))
    }
}

/// `t` is `s` with its handler queues flushed with the given readiness, and
/// nothing else changed.
pub open spec fn handler_queues_flushed(
    s: Service,
    t: Service,
    service_ready: Seq<(usize, bool)>,
    session_ready: Seq<(usize, bool)>,
) -> bool {
    &&& t.sessions() == s.sessions()
    &&& t.listen_list() == s.listen_list()
    &&& t.published_listens() == s.published_listens()
    &&& t.dials() == s.dials()
    &&& t.state() == s.state()
    &&& t.next_id() == s.next_id()
    &&& t.protocols() == s.protocols()
    &&& t.configuration() == s.configuration()
    &&& t.is_initialized() == s.is_initialized()
    &&& t.is_shut_down() == s.is_shut_down()
    &&& t.wf()
    &&& t.service_handles().len() == s.service_handles().len()
    &&& t.session_handles().len() == s.session_handles().len()
    &&& forall|k: int| #![trigger t.service_handles()[k]] 0 <= k < s.service_handles().len() ==> t.service_handles()[k].0 == s.service_handles()[k].0
        && t.service_handles()[k].1@ == send_outcome(s.service_handles()[k].1@, service_ready[k].0 as nat, service_ready[k].1).2
    &&& forall|k: int| #![trigger t.session_handles()[k]] 0 <= k < s.session_handles().len() ==> t.session_handles()[k].0 == s.session_handles()[k].0
        && t.session_handles()[k].1 == s.session_handles()[k].1
        && t.session_handles()[k].2@ == send_outcome(s.session_handles()[k].2@, session_ready[k].0 as nat, session_ready[k].1).2
}

/// Whether flushing the handler queues with the given readiness finds one
/// whose receiver is gone.
pub open spec fn any_handler_gone(
    sh: Seq<(ProtocolId, Buffer<ServiceProtocolEvent>)>,
    service_ready: Seq<(usize, bool)>,
    hh: Seq<(SessionId, ProtocolId, Buffer<SessionProtocolEvent>)>,
    session_ready: Seq<(usize, bool)>,
) -> bool {
    (exists|k: int| 0 <= k < sh.len() && #[trigger] send_outcome(sh[k].1@, service_ready[k].0 as nat, service_ready[k].1).0 == SendResult::Disconnect)
    || (exists|k: int| 0 <= k < hh.len() && #[trigger] send_outcome(hh[k].2@, session_ready[k].0 as nat, session_ready[k].1).0 == SendResult::Disconnect)
}

/// `out` holds, between the cut points `cuts[j]` and `cuts[j + 1]`, the
/// outputs of flushing session `s[j]` with readiness `ready[j]`, for each `j`
/// below `n`.
pub open spec fn session_flush_segments(
    s: Seq<SessionController>,
    ready: Seq<(usize, bool)>,
    out: Seq<Output>,
    cuts: Seq<int>,
    n: int,
) -> bool {
    &&& cuts.len() == n + 1
    &&& forall|i: int, k: int| 0 <= i <= k <= n ==> #[trigger] cuts[i] <= #[trigger] cuts[k]
    &&& cuts[n] <= out.len()
    &&& forall|j: int| 0 <= j < n ==> session_flush_outputs(
        s[j],
        ready[j].0 as nat,
        ready[j].1,
        #[trigger] out.subrange(cuts[j], cuts[j + 1]),
    )
}

impl Service {
    /// Records that the transport connected to `address` and its handshake
    /// runs: the attempt is in flight and the session will open `target`.
    pub fn dial(&mut self, address: Multiaddr, target: TargetProtocol)
        requires
            old(self).wf(),
        ensures
            final(self).wf(),
            final(self).dialing(address@),
            final(self).dial_target(address@) == target,
            forall|b: Seq<(u32, Seq<u8>)>| b != address@ ==> final(self).dialing(b) == old(self).dialing(b),
            final(self).state() == pending_started(old(self).state()),
            final(self).sessions() == old(self).sessions(),
            final(self).is_shut_down() == old(self).is_shut_down(),
    {
        let _ = self.take_dial_target(&address);
        let ghost s1 = *self;
        let ghost d0 = self.dial_protocols@;
        self.dial_protocols.push((address, target));
        proof {
            let d = self.dial_protocols@;
            assert(d[d.len() - 1].0@ == address@);
            assert(self.dialing(address@));
            assert forall|b: Seq<(u32, Seq<u8>)>| b != address@ implies self.dialing(b) == s1.dialing(b) by {
                if s1.dialing(b) {
                    let k = choose|k: int| 0 <= k < d0.len() && d0[k].0@ == b;
                    assert(d[k] == d0[k]);
                }
                if self.dialing(b) {
                    let k = choose|k: int| 0 <= k < d.len() && d[k].0@ == b;
                    assert(k < d.len() - 1);
                    assert(d[k] == d0[k]);
                }
            }
            assert forall|k: int| 0 <= k < d0.len() implies d0[k].0@ != address@ by {
                if d0[k].0@ == address@ {
                    assert(s1.dialing(address@));
                }
            }
            assert forall|k: int, l: int| 0 <= k < d.len() && 0 <= l < d.len() && k != l implies d[k].0@ != d[l].0@ by {
                if k < d.len() - 1 && l < d.len() - 1 {
                    assert(d[k] == d0[k] && d[l] == d0[l]);
                } else if k < d.len() - 1 {
                    assert(d[k] == d0[k]);
                } else {
                    assert(d[l] == d0[l]);
                }
            }
            let i = choose|i: int| 0 <= i < d.len() && d[i].0@ == address@;
            assert(i == d.len() - 1);
        }
        self.state.increase();
    }

    /// The ids of the open sessions, in the order of their queues.
    pub fn open_session_ids(&self) -> (r: Vec<SessionId>)
        ensures
            r@ == ids_of(self.sessions()),
    {
        let mut r: Vec<SessionId> = Vec::new();
        let mut i: usize = 0;
        while i < self.sessions.len()
            invariant
                0 <= i <= self.sessions@.len(),
                r@ == ids_of(self.sessions@).take(i as int),
            decreases self.sessions@.len() - i,
        {
            r.push(self.sessions[i].context.id);
            i = i + 1;
            assert(r@ =~= ids_of(self.sessions@).take(i as int));
        }
        assert(ids_of(self.sessions@).take(i as int) =~= ids_of(self.sessions@));
        r
    }

    /// The protocols of the service-level handler queues, in order.
    pub fn service_handle_ids(&self) -> (r: Vec<ProtocolId>)
        ensures
            r@ == self.service_handles().map_values(|h: (ProtocolId, Buffer<ServiceProtocolEvent>)| h.0),
    {
        let mut r: Vec<ProtocolId> = Vec::new();
        let mut i: usize = 0;
        while i < self.service_proto_handles.len()
            invariant
                0 <= i <= self.service_proto_handles@.len(),
                r@ == self.service_proto_handles@.map_values(|h: (ProtocolId, Buffer<ServiceProtocolEvent>)| h.0).take(i as int),
            decreases self.service_proto_handles@.len() - i,
        {
            r.push(self.service_proto_handles[i].0);
            i = i + 1;
            assert(r@ =~= self.service_proto_handles@.map_values(|h: (ProtocolId, Buffer<ServiceProtocolEvent>)| h.0).take(i as int));
        }
        assert(self.service_proto_handles@.map_values(|h: (ProtocolId, Buffer<ServiceProtocolEvent>)| h.0).take(i as int) =~= self.service_proto_handles@.map_values(|h: (ProtocolId, Buffer<ServiceProtocolEvent>)| h.0));
        r
    }

    /// The (session, protocol) keys of the session-level handler queues, in
    /// order.
    pub fn session_handle_keys(&self) -> (r: Vec<(SessionId, ProtocolId)>)
        ensures
            r@ == self.session_handles().map_values(|h: (SessionId, ProtocolId, Buffer<SessionProtocolEvent>)| (h.0, h.1)),
    {
        let mut r: Vec<(SessionId, ProtocolId)> = Vec::new();
        let mut i: usize = 0;
        while i < self.session_proto_handles.len()
            invariant
                0 <= i <= self.session_proto_handles@.len(),
                r@ == self.session_proto_handles@.map_values(|h: (SessionId, ProtocolId, Buffer<SessionProtocolEvent>)| (h.0, h.1)).take(i as int),
            decreases self.session_proto_handles@.len() - i,
        {
            r.push((self.session_proto_handles[i].0, self.session_proto_handles[i].1));
            i = i + 1;
            assert(r@ =~= self.session_proto_handles@.map_values(|h: (SessionId, ProtocolId, Buffer<SessionProtocolEvent>)| (h.0, h.1)).take(i as int));
        }
        assert(self.session_proto_handles@.map_values(|h: (SessionId, ProtocolId, Buffer<SessionProtocolEvent>)| (h.0, h.1)).take(i as int) =~= self.session_proto_handles@.map_values(|h: (SessionId, ProtocolId, Buffer<SessionProtocolEvent>)| (h.0, h.1)));
        r
    }

    /// The listens last published to the handlers.
    pub fn listen_addresses(&self) -> (r: Vec<Multiaddr>)
        ensures
            addrs_view(r@) == self.published_listens(),
    {
        copy_addrs(&self.context_listens)
    }

    /// The registered protocols.
    pub fn protocol_configs(&self) -> (r: &Vec<ProtocolMeta>)
        ensures
            r@ == self.protocols(),
    {
        &self.protocol_configs
    }

    /// The run state.
    pub fn run_state(&self) -> (r: State)
        ensures
            r == self.state(),
    {
        self.state
    }

    /// Whether the service has shut down.
    pub fn is_shutdown(&self) -> (r: bool)
        ensures
            r == self.is_shut_down(),
    {
        self.shutdown
    }

    /// Hands every session queue to its channel; `ready[j]` gives the
    /// capacity and liveness of the channel of the session at index `j`.
    pub fn distribute_to_session(&mut self, ready: &Vec<(usize, bool)>, out: &mut Vec<Output>)
        requires
            old(self).wf(),
            ready@.len() == old(self).sessions().len(),
        ensures
            final(self).wf(),
            extends(old(out)@, final(out)@),
            old(self).is_shut_down() ==> *final(self) == *old(self) && final(out)@ == old(out)@,
            !old(self).is_shut_down() ==> {
                &&& old(self).unchanged_but_sessions(&*final(self))
                &&& final(self).session_handles() == old(self).session_handles()
                &&& final(self).sessions().len() == old(self).sessions().len()
                &&& forall|j: int| 0 <= j < old(self).sessions().len() ==> #[trigger] final(self).sessions()[j].context == old(self).sessions()[j].context
                    && final(self).sessions()[j].buffer@ == send_outcome(old(self).sessions()[j].buffer@, ready@[j].0 as nat, ready@[j].1).2
                &&& exists|cuts: Seq<int>| {
                    &&& session_flush_segments(old(self).sessions(), ready@, final(out)@, cuts, old(self).sessions().len() as int)
                    &&& cuts[0] == old(out)@.len()
                    &&& cuts[old(self).sessions().len() as int] == final(out)@.len()
                }
            },
    {
        if self.shutdown {
            assert(out@.take(out@.len() as int) =~= out@);
            return ;
        }
        let n = self.sessions.len();
        let mut j: usize = 0;
        let ghost mut cuts: Seq<int> = seq![old(out)@.len() as int];
        while j < n
            invariant
                self.wf(),
                !self.shutdown,
                n == old(self).sessions@.len(),
                ready@.len() == n,
                self.sessions@.len() == n,
                old(self).unchanged_but_sessions(&*self),
                self.session_proto_handles@ == old(self).session_proto_handles@,
                0 <= j <= n,
                extends(old(out)@, out@),
                session_flush_segments(old(self).sessions@, ready@, out@, cuts, j as int),
                cuts[0] == old(out)@.len(),
                cuts[j as int] == out@.len(),
                forall|k: int| 0 <= k < n ==> #[trigger] self.sessions@[k].context == old(self).sessions@[k].context,
                forall|k: int| 0 <= k < j ==> #[trigger] self.sessions@[k].buffer@ == send_outcome(old(self).sessions@[k].buffer@, ready@[k].0 as nat, ready@[k].1).2,
                forall|k: int| j <= k < n ==> #[trigger] self.sessions@[k] == old(self).sessions@[k],
            decreases n - j,
        {
            let ghost before = out@;
            let ghost old_cuts = cuts;
            self.flush_session(j, ready[j].0, ready[j].1, out);
            assert(out@.take(old(out)@.len() as int) =~= old(out)@) by {
                assert(out@.take(before.len() as int).take(old(out)@.len() as int) =~= out@.take(old(out)@.len() as int));
            }
            proof {
                cuts = old_cuts.push(out@.len() as int);
                assert(added(before, out@) =~= out@.subrange(before.len() as int, out@.len() as int));
                assert forall|i: int| 0 <= i < j + 1 implies session_flush_outputs(
                    old(self).sessions@[i],
                    ready@[i].0 as nat,
                    ready@[i].1,
                    #[trigger] out@.subrange(cuts[i], cuts[i + 1]),
                ) by {
                    if i < j {
                        assert(old_cuts[i] <= old_cuts[i + 1]);
                        assert(old_cuts[i + 1] <= old_cuts[j as int]);
                        assert(out@.subrange(cuts[i], cuts[i + 1]) =~= before.subrange(old_cuts[i], old_cuts[i + 1]));
                    }
                }
                assert forall|i: int, k: int| 0 <= i <= k <= j + 1 implies #[trigger] cuts[i] <= #[trigger] cuts[k] by {
                    if k <= j {
                        assert(cuts[i] == old_cuts[i] && cuts[k] == old_cuts[k]);
                    } else {
                        assert(cuts[i] == old_cuts[i] || i == j + 1);
                        if i <= j {
                            assert(old_cuts[i] <= old_cuts[j as int]);
                        }
                    }
                }
            }
            j = j + 1;
        }
    }

    /// Hands every service-level handler queue to its channel; tells whether
    /// the receiver of one is gone.
    fn flush_service_handles(&mut self, service_ready: &Vec<(usize, bool)>, out: &mut Vec<Output>) -> (gone: bool)
        requires
            old(self).wf(),
            !old(self).shutdown,
            service_ready@.len() == old(self).service_proto_handles@.len(),
        ensures
            final(self).wf(),
            extends(old(out)@, final(out)@),
            old(self).same_but_service_handles(&*final(self)),
            final(self).service_proto_handles@.len() == old(self).service_proto_handles@.len(),
            forall|k: int| #![trigger final(self).service_proto_handles@[k]] 0 <= k < old(self).service_proto_handles@.len() ==> final(self).service_proto_handles@[k].0 == old(self).service_proto_handles@[k].0
                && final(self).service_proto_handles@[k].1@ == send_outcome(old(self).service_proto_handles@[k].1@, service_ready@[k].0 as nat, service_ready@[k].1).2,
            gone == exists|k: int| 0 <= k < old(self).service_proto_handles@.len() && #[trigger] send_outcome(old(self).service_proto_handles@[k].1@, service_ready@[k].0 as nat, service_ready@[k].1).0 == SendResult::Disconnect,
            final(out)@ == old(out)@ + service_flush_outputs(old(self).service_proto_handles@, service_ready@),
    {
        let mut gone = false;
        let n = self.service_proto_handles.len();
        let mut k: usize = 0;
        while k < n
            invariant
                self.wf(),
                !self.shutdown,
                n == old(self).service_proto_handles@.len(),
                service_ready@.len() == n,
                old(self).same_but_service_handles(&*self),
                self.service_proto_handles@.len() == n,
                0 <= k <= n,
                extends(old(out)@, out@),
                out@ == old(out)@ + service_flush_outputs(old(self).service_proto_handles@.take(k as int), service_ready@),
                gone == exists|i: int| 0 <= i < k && #[trigger] send_outcome(old(self).service_proto_handles@[i].1@, service_ready@[i].0 as nat, service_ready@[i].1).0 == SendResult::Disconnect,
                forall|i: int| #![trigger self.service_proto_handles@[i]] 0 <= i < n ==> self.service_proto_handles@[i].0 == old(self).service_proto_handles@[i].0,
                forall|i: int| #![trigger self.service_proto_handles@[i]] 0 <= i < k ==> self.service_proto_handles@[i].1@ == send_outcome(old(self).service_proto_handles@[i].1@, service_ready@[i].0 as nat, service_ready@[i].1).2,
                forall|i: int| #![trigger self.service_proto_handles@[i]] k <= i < n ==> self.service_proto_handles@[i] == old(self).service_proto_handles@[i],
            decreases n - k,
        {
            let ghost before = out@;
            proof {
                let h = old(self).service_proto_handles@;
                assert(h.take(k as int + 1).drop_last() =~= h.take(k as int));
                assert(self.service_proto_handles@[k as int] == h[k as int]);
            }
            let r = self.flush_service_handle(k, service_ready[k].0, service_ready[k].1, out);
            proof {
                let h = old(self).service_proto_handles@;
                let o = send_outcome(h[k as int].1@, service_ready@[k as int].0 as nat, service_ready@[k as int].1);
                assert(h.take(k as int + 1)[k as int] == h[k as int]);
                assert(out@ =~= old(out)@ + service_flush_outputs(h.take(k as int + 1), service_ready@));
            }
            if r == SendResult::Disconnect {
                gone = true;
            }
            assert(out@.take(old(out)@.len() as int) =~= old(out)@) by {
                assert(out@.take(before.len() as int) =~= before);
                assert(out@.take(before.len() as int).take(old(out)@.len() as int) =~= out@.take(old(out)@.len() as int));
            }
            k = k + 1;
        }
        gone
    }

    /// Hands every session-level handler queue to its channel; tells whether
    /// the receiver of one is gone.
    fn flush_session_handles(&mut self, session_ready: &Vec<(usize, bool)>, out: &mut Vec<Output>) -> (gone: bool)
        requires
            old(self).wf(),
            !old(self).shutdown,
            session_ready@.len() == old(self).session_proto_handles@.len(),
        ensures
            final(self).wf(),
            extends(old(out)@, final(out)@),
            old(self).same_but_session_handles(&*final(self)),
            final(self).session_proto_handles@.len() == old(self).session_proto_handles@.len(),
            forall|k: int| #![trigger final(self).session_proto_handles@[k]] 0 <= k < old(self).session_proto_handles@.len() ==> final(self).session_proto_handles@[k].0 == old(self).session_proto_handles@[k].0
                && final(self).session_proto_handles@[k].1 == old(self).session_proto_handles@[k].1
                && final(self).session_proto_handles@[k].2@ == send_outcome(old(self).session_proto_handles@[k].2@, session_ready@[k].0 as nat, session_ready@[k].1).2,
            gone == exists|k: int| 0 <= k < old(self).session_proto_handles@.len() && #[trigger] send_outcome(old(self).session_proto_handles@[k].2@, session_ready@[k].0 as nat, session_ready@[k].1).0 == SendResult::Disconnect,
            final(out)@ == old(out)@ + session_handle_flush_outputs(old(self).session_proto_handles@, session_ready@),
    {
        let mut gone = false;
        let m = self.session_proto_handles.len();
        let mut k: usize = 0;
        while k < m
            invariant
                self.wf(),
                !self.shutdown,
                m == old(self).session_proto_handles@.len(),
                session_ready@.len() == m,
                old(self).same_but_session_handles(&*self),
                self.session_proto_handles@.len() == m,
                0 <= k <= m,
                extends(old(out)@, out@),
                out@ == old(out)@ + session_handle_flush_outputs(old(self).session_proto_handles@.take(k as int), session_ready@),
                gone == exists|i: int| 0 <= i < k && #[trigger] send_outcome(old(self).session_proto_handles@[i].2@, session_ready@[i].0 as nat, session_ready@[i].1).0 == SendResult::Disconnect,
                forall|i: int| #![trigger self.session_proto_handles@[i]] 0 <= i < m ==> self.session_proto_handles@[i].0 == old(self).session_proto_handles@[i].0 && self.session_proto_handles@[i].1 == old(self).session_proto_handles@[i].1,
                forall|i: int| #![trigger self.session_proto_handles@[i]] 0 <= i < k ==> self.session_proto_handles@[i].2@ == send_outcome(old(self).session_proto_handles@[i].2@, session_ready@[i].0 as nat, session_ready@[i].1).2,
                forall|i: int| #![trigger self.session_proto_handles@[i]] k <= i < m ==> self.session_proto_handles@[i] == old(self).session_proto_handles@[i],
            decreases m - k,
        {
            let ghost before = out@;
            proof {
                let h = old(self).session_proto_handles@;
                assert(h.take(k as int + 1).drop_last() =~= h.take(k as int));
                assert(self.session_proto_handles@[k as int] == h[k as int]);
            }
            let r = self.flush_session_handle(k, session_ready[k].0, session_ready[k].1, out);
            proof {
                let h = old(self).session_proto_handles@;
                assert(h.take(k as int + 1)[k as int] == h[k as int]);
                assert(out@ =~= old(out)@ + session_handle_flush_outputs(h.take(k as int + 1), session_ready@));
            }
            if r == SendResult::Disconnect {
                gone = true;
            }
            assert(out@.take(old(out)@.len() as int) =~= old(out)@) by {
                assert(out@.take(before.len() as int) =~= before);
                assert(out@.take(before.len() as int).take(old(out)@.len() as int) =~= out@.take(old(out)@.len() as int));
            }
            k = k + 1;
        }
        gone
    }

    /// Hands every handler queue to its channel (`service_ready[k]` and
    /// `session_ready[k]` give the capacity and liveness of the channel at
    /// index `k`); when the receiver of one is gone, the service shuts down.
    pub fn distribute_to_user_level(
        &mut self,
        service_ready: &Vec<(usize, bool)>,
        session_ready: &Vec<(usize, bool)>,
        out: &mut Vec<Output>,
    )
        requires
            old(self).wf(),
            service_ready@.len() == old(self).service_handles().len(),
            session_ready@.len() == old(self).session_handles().len(),
        ensures
            final(self).wf(),
            extends(old(out)@, final(out)@),
            old(self).is_shut_down() ==> *final(self) == *old(self) && final(out)@ == old(out)@,
            !old(self).is_shut_down() ==> exists|m: Service|
                #![trigger handler_queues_flushed(*old(self), m, service_ready@, session_ready@)]
            {
                let flushed = old(out)@ + service_flush_outputs(old(self).service_handles(), service_ready@)
                    + session_handle_flush_outputs(old(self).session_handles(), session_ready@);
                &&& handler_queues_flushed(*old(self), m, service_ready@, session_ready@)
                &&& if any_handler_gone(old(self).service_handles(), service_ready@, old(self).session_handles(), session_ready@) {
                    shutdown_post(m, false, *final(self), flushed, final(out)@)
                } else {
                    *final(self) == m && final(out)@ == flushed
                }
            },
    {
        if self.shutdown {
            assert(out@.take(out@.len() as int) =~= out@);
            return ;
        }
        let ghost out0 = out@;
        let g1 = self.flush_service_handles(service_ready, out);
        let ghost out1 = out@;
        let g2 = self.flush_session_handles(session_ready, out);
        let ghost out2 = out@;
        let ghost m = *self;
        proof {
            assert(out2 =~= out0 + service_flush_outputs(old(self).service_proto_handles@, service_ready@)
                + session_handle_flush_outputs(old(self).session_proto_handles@, session_ready@));
            assert(handler_queues_flushed(*old(self), m, service_ready@, session_ready@));
            assert((g1 || g2) == any_handler_gone(old(self).service_handles(), service_ready@, old(self).session_handles(), session_ready@));
        }
        if g1 || g2 {
            self.shutdown(false, out);
            assert(out@.take(out0.len() as int) =~= out0) by {
                assert(out@.take(out2.len() as int).take(out0.len() as int) =~= out@.take(out0.len() as int));
            }
        } else {
            assert(out@.take(out0.len() as int) =~= out0);
        }
    }
}

/// Whether handling `e` on `s` ends an attempt in flight: a finished outbound
/// handshake, a failed dial, a listener bound, or a failed listen attempt.
pub open spec fn ends_attempt(s: Service, e: SessionEvent) -> bool {
    match e {
        SessionEvent::HandshakeSuccess { ty, .. } => ty == SessionType::Outbound,
        SessionEvent::HandshakeError { ty, .. } => ty == SessionType::Outbound,
        SessionEvent::DialError { .. } => true,
        SessionEvent::ListenStart { .. } => true,
        SessionEvent::ListenError { address, .. } => !s.listening(address@),
        _ => false,
    }
}

/// Every open session has one controller under an id of its own, and every
/// session-level handler record names an open session.
pub proof fn lemma_sessions_keyed(s: Service)
    requires
        s.wf(),
    ensures
        ids_unique(s.sessions()),
        forall|k: int| 0 <= k < s.session_handles().len() ==> s.has_session(#[trigger] s.session_handles()[k].0),
        pairs_unique(s.session_handles()),
{
}

/// No two open sessions share a remote public key.
pub proof fn lemma_keys_distinct(s: Service)
    requires
        s.wf(),
    ensures
        keys_unique(s.sessions()),
{
}

/// A session event changes the count of attempts in flight by at most one
/// down, and only when it ends an attempt.
pub proof fn lemma_pending_on_session_event(s: Service, e: SessionEvent, t: Service, before: Seq<Output>, after: Seq<Output>)
    requires
        s.wf(),
        session_event_post(s, e, t, before, after),
    ensures
        t.state().pending == pending_after(s.state(), ends_attempt(s, e)).pending,
{
    match e {
        SessionEvent::HandshakeSuccess { public_key, address, ty, listen_address } => {
            let m = choose|m: Service| {
                &&& s.same_but_state(&m)
                &&& m.state() == pending_after(s.state(), ty == SessionType::Outbound)
                &&& m.wf()
                &&& m.sessions() == s.sessions()
                &&& m.session_handles() == s.session_handles()
                &&& m.next_id() == s.next_id()
                &&& m.protocols() == s.protocols()
                &&& m.max_connections() == s.max_connections()
                &&& m.is_shut_down() == s.is_shut_down()
                &&& forall|a: Seq<(u32, Seq<u8>)>| m.dialing(a) == s.dialing(a) && m.dial_target(a) == s.dial_target(a)
                &&& if m.spec_reached_limit() {
                    t == m && after == before.push(Output::RejectConnection)
                } else {
                    session_open_post(m, public_key, address@, ty, listen_address, t, before, after)
                }
            };
            if !m.spec_reached_limit() {
                assert(m.same_run_state(&t));
            }
        },
        _ => {},
    }
}

/// A user task starts at most one attempt: a dial to an address not being
/// dialed, or a listen on an address not listened on, adds exactly one (up to
/// the counter's bound); any other task leaves the count as it is.
pub proof fn lemma_pending_on_service_task(s: Service, task: ServiceTask, priority: Priority, t: Service, before: Seq<Output>, after: Seq<Output>)
    requires
        s.wf(),
        service_task_post(s, task, priority, t, before, after),
    ensures
        t.state().pending == match task {
            ServiceTask::Dial { address, .. } => if s.dialing(address@) { s.state().pending } else { pending_started(s.state()).pending },
            ServiceTask::Listen { address } => if s.listening(address@) { s.state().pending } else { pending_started(s.state()).pending },
            _ => s.state().pending,
        },
{
}

/// A new session gets an id that no open session holds.
pub proof fn lemma_fresh_id(s: Service, key: Option<PublicKey>, address: Seq<(u32, Seq<u8>)>, ty: SessionType, listen: Option<Multiaddr>, t: Service, before: Seq<Output>, after: Seq<Output>)
    requires
        session_open_post(s, key, address, ty, listen, t, before, after),
        !is_duplicate(s.sessions(), key),
        !is_peer_mismatch(key, address),
    ensures
        !s.session_ids().contains(t.sessions().last().context.id),
        t.has_session(t.sessions().last().context.id),
{
    assert(t.sessions()[t.sessions().len() - 1].context.id == t.sessions().last().context.id);
}

/// Neither a session event nor a user task ever clears the shutdown flags.
pub proof fn lemma_shutdown_monotone(
    s: Service,
    e: SessionEvent,
    t: Service,
    task: ServiceTask,
    priority: Priority,
    u: Service,
    before: Seq<Output>,
    mid: Seq<Output>,
    after: Seq<Output>,
)
    requires
        session_event_post(s, e, t, before, mid),
        service_task_post(t, task, priority, u, mid, after),
    ensures
        s.is_shut_down() ==> u.is_shut_down(),
        s.state().shutdown ==> u.state().shutdown,
{
}

/// A message queued for one session leaves that session's queue, when its
/// channel takes everything, holding the same bytes, at the priority and on
/// the protocol given.
pub proof fn lemma_message_round_trip(
    a: SessionController,
    b: SessionController,
    priority: Priority,
    proto_id: ProtocolId,
    content: Seq<u8>,
    capacity: nat,
)
    requires
        queue_gained(a, b, 1, priority, proto_id, content),
        capacity >= b.buffer@.len(),
    ensures
        send_outcome(b.buffer@, capacity, true).0 == SendResult::Drained,
        send_outcome(b.buffer@, capacity, true).2.len() == 0,
        match to_session_outputs(b.context.id, send_outcome(b.buffer@, capacity, true).1).last() {
            Output::ToSession { id, priority: p, command: SessionCommand::ProtocolMessage { proto_id: q, data } } =>
                id == a.context.id && p == priority && q == proto_id && bytes_content(data) == content,
            _ => false,
        },
{
    let k = b.buffer@.len() - 1;
    assert(is_message(b.buffer@[k], priority, proto_id, content));
}

/// A session closed by itself is reported to the user exactly once, however
/// many closes follow; once it is gone, a close asked by the user changes
/// nothing.
pub proof fn lemma_close_once(
    s0: Service,
    id: SessionId,
    s1: Service,
    s2: Service,
    o0: Seq<Output>,
    o1: Seq<Output>,
    o2: Seq<Output>,
)
    requires
        session_close_post(s0, id, Source::Internal, s1, o0, o1),
        session_close_post(s1, id, Source::Internal, s2, o1, o2),
    ensures
        count_session_close(o2.skip(o0.len() as int), id) == if s0.has_session(id) { 1nat } else { 0nat },
        !s2.has_session(id),
        forall|s3: Service, o3: Seq<Output>| session_close_post(s2, id, Source::External, s3, o2, o3) ==> s3.sessions() == s2.sessions() && o3 == o2,
{
    assert(!s1.has_session(id));
    assert(o2 == o1);
    if s0.has_session(id) {
        let i = choose|i: int| 0 <= i < s0.sessions().len() && s0.sessions()[i].context.id == id && s1.sessions()
            == s0.sessions().remove(i) && o1 == o0.push(
            Output::Event(ServiceEvent::SessionClose { session_context: s0.sessions()[i].context }),
        );
        let x = Output::Event(ServiceEvent::SessionClose { session_context: s0.sessions()[i].context });
        assert(o2.skip(o0.len() as int) =~= seq![x]);
        assert(seq![x].drop_last() =~= Seq::<Output>::empty());
        assert(is_session_close(x, id));
        assert(seq![x].last() == x);
        assert(count_session_close(Seq::<Output>::empty(), id) == 0);
        assert(count_session_close(seq![x], id) == 1);
    } else {
        assert(o2.skip(o0.len() as int) =~= Seq::<Output>::empty());
        assert(count_session_close(Seq::<Output>::empty(), id) == 0);
    }
    assert forall|s3: Service, o3: Seq<Output>| session_close_post(s2, id, Source::External, s3, o2, o3) implies s3.sessions() == s2.sessions() && o3 == o2 by {
        assert forall|j: int| 0 <= j < s2.sessions().len() implies s2.sessions()[j].context.id != id by {
            if s2.sessions()[j].context.id == id {
                assert(s2.has_session(id));
            }
        }
        assert(s3.sessions() =~= s2.sessions());
    }
}

/// The cancels to send for the waited tasks `w`, in order: one for each
/// whose cancel was not sent yet.
pub open spec fn cancel_outputs(w: Seq<(WaitTask, bool)>) -> Seq<Output>
    decreases w.len(),
{
    if w.len() == 0 {
        Seq::empty()
    } else if w.last().1 {
        cancel_outputs(w.drop_last()).push(Output::Cancel { task: w.last().0 })
    } else {
        cancel_outputs(w.drop_last())
    }
}

/// The waited tasks of `w` that have not finished (`finished[i]` false),
/// in order, each with its cancel sent.
pub open spec fn still_waiting(w: Seq<(WaitTask, bool)>, finished: Seq<bool>) -> Seq<(WaitTask, bool)>
    decreases w.len(),
{
    if w.len() == 0 {
        Seq::empty()
    } else if finished[w.len() - 1] {
        still_waiting(w.drop_last(), finished)
    } else {
        still_waiting(w.drop_last(), finished).push((w.last().0, false))
    }
}

impl Service {
    /// The tasks the service waits for when it ends, each with whether its
    /// cancel is still to be sent.
    pub closed spec fn wait_list(&self) -> Seq<(WaitTask, bool)> {
        self.waiting@
    }

    /// Only the waited tasks may differ.
    pub closed spec fn same_but_waiting(&self, t: &Service) -> bool {
        *t == (Service { waiting: t.waiting, ..*self })
    }

    /// The tasks the service waits for, in order.
    pub fn wait_tasks(&self) -> (r: Vec<WaitTask>)
        ensures
            r@ == self.wait_list().map_values(|w: (WaitTask, bool)| w.0),
    {
        let mut r: Vec<WaitTask> = Vec::new();
        let mut i: usize = 0;
        while i < self.waiting.len()
            invariant
                0 <= i <= self.waiting@.len(),
                r@ == self.waiting@.map_values(|w: (WaitTask, bool)| w.0).take(i as int),
            decreases self.waiting@.len() - i,
        {
            r.push(self.waiting[i].0);
            i = i + 1;
            assert(r@ =~= self.waiting@.map_values(|w: (WaitTask, bool)| w.0).take(i as int));
        }
        assert(self.waiting@.map_values(|w: (WaitTask, bool)| w.0).take(i as int) =~= self.waiting@.map_values(|w: (WaitTask, bool)| w.0));
        r
    }

    /// One round of waiting for the tasks started by the service once it has
    /// ended: sends each task its cancel once, drops the tasks that have
    /// finished (`finished[i]` for the `i`-th waited task), and tells whether
    /// none is left.
    pub fn wait_handle_poll(&mut self, finished: &Vec<bool>, out: &mut Vec<Output>) -> (r: bool)
        requires
            finished@.len() == old(self).wait_list().len(),
        ensures
            final(out)@ == old(out)@ + cancel_outputs(old(self).wait_list()),
            final(self).wait_list() == still_waiting(old(self).wait_list(), finished@),
            old(self).same_but_waiting(&*final(self)),
            r == (final(self).wait_list().len() == 0),
    {
        let ghost w = self.waiting@;
        let mut kept: Vec<(WaitTask, bool)> = Vec::new();
        let mut i: usize = 0;
        while i < self.waiting.len()
            invariant
                *self == *old(self),
                w == self.waiting@,
                finished@.len() == w.len(),
                0 <= i <= w.len(),
                kept@ == still_waiting(w.take(i as int), finished@),
                out@ == old(out)@ + cancel_outputs(w.take(i as int)),
            decreases w.len() - i,
        {
            let (task, cancel) = self.waiting[i];
            proof {
                assert(w.take(i as int + 1).drop_last() =~= w.take(i as int));
                assert(w.take(i as int + 1).last() == w[i as int]);
            }
            if cancel {
                out.push(Output::Cancel { task });
            }
            if !finished[i] {
                kept.push((task, false));
            }
            proof {
                assert(out@ =~= old(out)@ + cancel_outputs(w.take(i as int + 1)));
            }
            i = i + 1;
        }
        assert(w.take(i as int) =~= w);
        self.waiting = kept;
        self.waiting.len() == 0
    }
}

impl Service {
    /// `unchanged_but_sessions` keeps everything but the sessions and the session-level handler records.
    pub proof fn lemma_unchanged_but_sessions(s: Service, t: Service)
        requires
            s.unchanged_but_sessions(&t),
        ensures
            t.protocols() == s.protocols(),
            t.listen_list() == s.listen_list(),
            t.published_listens() == s.published_listens(),
            t.dials() == s.dials(),
            t.configuration() == s.configuration(),
            t.state() == s.state(),
            t.next_id() == s.next_id(),
            t.service_handles() == s.service_handles(),
            t.is_initialized() == s.is_initialized(),
            t.is_shut_down() == s.is_shut_down(),
            t.wait_list() == s.wait_list(),
    {
    }

    /// `same_run_state` keeps the registry, listens, configuration, run state, service-level handler queues, waited tasks and flags.
    pub proof fn lemma_same_run_state(s: Service, t: Service)
        requires
            s.same_run_state(&t),
        ensures
            t.wait_list() == s.wait_list(),
            t.protocols() == s.protocols(),
            t.listen_list() == s.listen_list(),
            t.published_listens() == s.published_listens(),
            t.configuration() == s.configuration(),
            t.state() == s.state(),
            t.service_handles() == s.service_handles(),
            t.is_initialized() == s.is_initialized(),
            t.is_shut_down() == s.is_shut_down(),
    {
    }

    /// `same_but_service_handles` keeps everything but the service-level handler queues.
    pub proof fn lemma_same_but_service_handles(s: Service, t: Service)
        requires
            s.same_but_service_handles(&t),
        ensures
            t.protocols() == s.protocols(),
            t.sessions() == s.sessions(),
            t.listen_list() == s.listen_list(),
            t.published_listens() == s.published_listens(),
            t.dials() == s.dials(),
            t.configuration() == s.configuration(),
            t.state() == s.state(),
            t.next_id() == s.next_id(),
            t.session_handles() == s.session_handles(),
            t.is_initialized() == s.is_initialized(),
            t.is_shut_down() == s.is_shut_down(),
            t.wait_list() == s.wait_list(),
    {
    }

    /// `same_but_session_handles` keeps everything but the session-level handler records.
    pub proof fn lemma_same_but_session_handles(s: Service, t: Service)
        requires
            s.same_but_session_handles(&t),
        ensures
            t.protocols() == s.protocols(),
            t.sessions() == s.sessions(),
            t.listen_list() == s.listen_list(),
            t.published_listens() == s.published_listens(),
            t.dials() == s.dials(),
            t.configuration() == s.configuration(),
            t.state() == s.state(),
            t.next_id() == s.next_id(),
            t.service_handles() == s.service_handles(),
            t.is_initialized() == s.is_initialized(),
            t.is_shut_down() == s.is_shut_down(),
            t.wait_list() == s.wait_list(),
    {
    }

    /// `same_but_listens_and_handles` keeps everything but the published listens and the handler queues.
    pub proof fn lemma_same_but_listens_and_handles(s: Service, t: Service)
        requires
            s.same_but_listens_and_handles(&t),
        ensures
            t.protocols() == s.protocols(),
            t.sessions() == s.sessions(),
            t.listen_list() == s.listen_list(),
            t.dials() == s.dials(),
            t.configuration() == s.configuration(),
            t.state() == s.state(),
            t.next_id() == s.next_id(),
            t.is_initialized() == s.is_initialized(),
            t.is_shut_down() == s.is_shut_down(),
            t.wait_list() == s.wait_list(),
    {
    }

    /// `same_but_config` keeps everything but the configuration.
    pub proof fn lemma_same_but_config(s: Service, t: Service)
        requires
            s.same_but_config(&t),
        ensures
            t.protocols() == s.protocols(),
            t.sessions() == s.sessions(),
            t.listen_list() == s.listen_list(),
            t.published_listens() == s.published_listens(),
            t.dials() == s.dials(),
            t.state() == s.state(),
            t.next_id() == s.next_id(),
            t.service_handles() == s.service_handles(),
            t.session_handles() == s.session_handles(),
            t.is_initialized() == s.is_initialized(),
            t.is_shut_down() == s.is_shut_down(),
            t.wait_list() == s.wait_list(),
    {
    }

    /// `same_but_state` keeps everything but the run state.
    pub proof fn lemma_same_but_state(s: Service, t: Service)
        requires
            s.same_but_state(&t),
        ensures
            t.protocols() == s.protocols(),
            t.sessions() == s.sessions(),
            t.listen_list() == s.listen_list(),
            t.published_listens() == s.published_listens(),
            t.dials() == s.dials(),
            t.configuration() == s.configuration(),
            t.next_id() == s.next_id(),
            t.service_handles() == s.service_handles(),
            t.session_handles() == s.session_handles(),
            t.is_initialized() == s.is_initialized(),
            t.is_shut_down() == s.is_shut_down(),
            t.wait_list() == s.wait_list(),
    {
    }

    /// `same_but_waiting` keeps everything but the waited tasks.
    pub proof fn lemma_same_but_waiting(s: Service, t: Service)
        requires
            s.same_but_waiting(&t),
        ensures
            t.protocols() == s.protocols(),
            t.sessions() == s.sessions(),
            t.listen_list() == s.listen_list(),
            t.published_listens() == s.published_listens(),
            t.dials() == s.dials(),
            t.configuration() == s.configuration(),
            t.state() == s.state(),
            t.next_id() == s.next_id(),
            t.service_handles() == s.service_handles(),
            t.session_handles() == s.session_handles(),
            t.is_initialized() == s.is_initialized(),
            t.is_shut_down() == s.is_shut_down(),
    {
    }

}
} // verus!
