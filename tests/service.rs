use bytes::Bytes;
use tentacle::buffer::{Buffer, SendResult};
use tentacle::compat::{CompatStream, CompatStream2};
use tentacle::control::ServiceContext;
use tentacle::event::{
    DialerErrorKind, ListenErrorKind, Output, ProtocolEvent, ProtocolHandleErrorKind, PublicKey,
    ServiceError, ServiceEvent, ServiceProtocolEvent, ServiceTask, SessionCommand, SessionEvent,
    SessionProtocolEvent,
};
use tentacle::multiaddr::{bytes_equal, AddrPart, Multiaddr, P2P_CODE};
use tentacle::service::{ProtocolHandle, ProtocolMeta, Service, ServiceConfig};
use tentacle::state::State;
use tentacle::types::{Priority, SessionType, TargetProtocol, TargetSession, WaitTask};

const IP4: u32 = 4;
const TCP: u32 = 6;

fn addr(last: u8, port: u16) -> Multiaddr {
    let mut a = Multiaddr::new();
    a.push(AddrPart { code: IP4, value: vec![127, 0, 0, last] });
    a.push(AddrPart { code: TCP, value: port.to_be_bytes().to_vec() });
    a
}

fn addr_with_peer(last: u8, port: u16, peer: &[u8]) -> Multiaddr {
    let mut a = addr(last, port);
    a.push(AddrPart { code: P2P_CODE, value: peer.to_vec() });
    a
}

fn key(k: u8) -> PublicKey {
    PublicKey { key: vec![k, k, k], peer_id: vec![0xaa, k] }
}

fn proto(id: usize, session_handle: ProtocolHandle) -> ProtocolMeta {
    ProtocolMeta {
        id,
        name: format!("/proto/{}", id),
        service_handle: ProtocolHandle::Empty,
        session_handle,
    }
}

fn config(send: usize, recv: usize, event: Vec<usize>) -> ServiceConfig {
    ServiceConfig {
        max_connection_number: 100,
        send_event_size: send,
        recv_event_size: recv,
        event,
        max_frame_length: 1024 * 1024,
        max_stream_window_size: 256 * 1024,
    }
}

fn service(event: Vec<usize>) -> Service {
    Service::new(vec![proto(7, ProtocolHandle::Callback)], false, config(100, 100, event))
}

fn open(s: &mut Service, k: u8, ty: SessionType) -> Vec<Output> {
    let mut out = Vec::new();
    let listen = if ty == SessionType::Inbound { Some(addr(1, 1337)) } else { None };
    s.handle_session_event(
        SessionEvent::HandshakeSuccess {
            public_key: Some(key(k)),
            address: addr(k, 4000 + k as u16),
            ty,
            listen_address: listen,
        },
        &mut out,
    );
    out
}

fn session_close_events(out: &[Output]) -> usize {
    out.iter()
        .filter(|o| matches!(o, Output::Event(ServiceEvent::SessionClose { .. })))
        .count()
}

#[test]
fn buffer_try_send_moves_in_order() {
    let mut b: Buffer<u32> = Buffer::new();
    assert_eq!(b.try_send(5, true).0, SendResult::Drained);
    b.push(1);
    b.push(2);
    b.push(3);
    let (r, sent) = b.try_send(2, true);
    assert_eq!(r, SendResult::Pending);
    assert_eq!(sent, vec![1, 2]);
    assert_eq!(b.len(), 1);
    let (r, sent) = b.try_send(5, true);
    assert_eq!(r, SendResult::Drained);
    assert_eq!(sent, vec![3]);
    assert!(b.is_empty());
}

#[test]
fn buffer_disconnect_drops_everything() {
    let mut b: Buffer<u32> = Buffer::new();
    b.push(9);
    let (r, sent) = b.try_send(5, false);
    assert_eq!(r, SendResult::Disconnect);
    assert!(sent.is_empty());
    assert!(b.is_empty());
    b.push(1);
    b.clear();
    assert_eq!(b.len(), 0);
}

#[test]
fn state_counts_attempts() {
    let mut st = State::new(false);
    assert!(st.is_shutdown());
    st.increase();
    st.increase();
    assert_eq!(st.pending, 2);
    assert!(!st.is_shutdown());
    st.decrease();
    st.decrease();
    st.decrease();
    assert_eq!(st.pending, 0);
    let mut forever = State::new(true);
    assert!(!forever.is_shutdown());
    forever.pre_shutdown();
    assert!(forever.is_shutdown());
}

#[test]
fn multiaddr_peer_id_and_equality() {
    let a = addr_with_peer(2, 80, &[1, 2, 3]);
    assert_eq!(a.peer_id(), Some(vec![1, 2, 3]));
    assert_eq!(addr(2, 80).peer_id(), None);
    assert!(a.same_as(&a.clone()));
    assert!(!a.same_as(&addr(2, 80)));
    assert!(!addr(2, 80).same_as(&addr(2, 81)));
    assert!(bytes_equal(&vec![1, 2], &vec![1, 2]));
    assert!(!bytes_equal(&vec![1, 2], &vec![1, 3]));
}

#[test]
fn compat_wrappers_hold_their_stream() {
    let mut c = CompatStream::new(5u8);
    *c.get_mut() += 1;
    assert_eq!(*c.get_ref(), 6);
    assert_eq!(c.into_inner(), 6);
    let mut c2 = CompatStream2::new(vec![1u8]);
    c2.get_mut().push(2);
    assert_eq!(c2.get_ref(), &vec![1, 2]);
}

#[test]
fn control_queues_tasks_in_order() {
    let mut ctx = ServiceContext::new();
    ctx.dial(addr(3, 9), TargetProtocol::All);
    ctx.disconnect(4);
    ctx.shutdown(true);
    let tasks = ctx.take_tasks();
    assert_eq!(tasks.len(), 3);
    assert!(matches!(tasks[0], (Priority::High, ServiceTask::Dial { .. })));
    assert!(matches!(tasks[1], (Priority::High, ServiceTask::Disconnect { session_id: 4 })));
    assert!(matches!(tasks[2], (Priority::High, ServiceTask::Shutdown(true))));
    assert!(ctx.take_tasks().is_empty());
}

#[test]
fn session_ids_are_fresh_and_not_reused_at_once() {
    let mut s = service(vec![]);
    open(&mut s, 1, SessionType::Inbound);
    open(&mut s, 2, SessionType::Inbound);
    assert_eq!(s.open_session_ids(), vec![1, 2]);
    let mut out = Vec::new();
    s.handle_session_event(SessionEvent::SessionClose { id: 1 }, &mut out);
    open(&mut s, 3, SessionType::Inbound);
    assert_eq!(s.open_session_ids(), vec![2, 3]);
}

#[test]
fn simple_echo() {
    // A listens, B dials A and opens protocol 7 only.
    let mut a = service(vec![]);
    let mut out = Vec::new();
    a.listen(addr(1, 0), &mut out);
    assert!(matches!(out[0], Output::Event(ServiceEvent::ListenStarted { .. })));
    assert!(matches!(out[1], Output::SpawnListener { .. }));

    let mut b = Service::new(
        vec![proto(5, ProtocolHandle::Empty), proto(7, ProtocolHandle::Callback)],
        false,
        config(100, 100, vec![7]),
    );
    let mut out = Vec::new();
    b.handle_service_task(
        ServiceTask::Dial { address: addr(1, 1337), target: TargetProtocol::Single(7) },
        Priority::High,
        &mut out,
    );
    assert!(matches!(out[0], Output::Dial { .. }));
    assert_eq!(b.run_state().pending, 1);
    let mut out = Vec::new();
    b.handle_session_event(
        SessionEvent::HandshakeSuccess {
            public_key: Some(key(1)),
            address: addr(1, 1337),
            ty: SessionType::Outbound,
            listen_address: None,
        },
        &mut out,
    );
    assert_eq!(b.run_state().pending, 0);
    match &out[0] {
        Output::StartSession { context, handles, open } => {
            assert_eq!(context.id, 1);
            assert_eq!(handles, &vec![7]);
            assert_eq!(open, &vec![7]);
            assert_eq!(context.address.peer_id(), Some(vec![0xaa, 1]));
        }
        other => panic!("unexpected {:?}", other),
    }
    assert!(matches!(out[1], Output::Event(ServiceEvent::SessionOpen { .. })));

    // A's handler replies `hello` on protocol 7.
    let out = open(&mut a, 2, SessionType::Inbound);
    assert!(matches!(&out[0], Output::StartSession { open, .. } if open.is_empty()));
    let mut out = Vec::new();
    a.handle_service_task(
        ServiceTask::ProtocolMessage {
            target: TargetSession::Single(1),
            proto_id: 7,
            data: Bytes::from_static(b"hello"),
        },
        Priority::Normal,
        &mut out,
    );
    a.distribute_to_session(&vec![(10, true)], &mut out);
    match &out[0] {
        Output::ToSession { id: 1, command: SessionCommand::ProtocolMessage { proto_id: 7, data }, .. } => {
            assert_eq!(&data[..], b"hello")
        }
        other => panic!("unexpected {:?}", other),
    }

    // B observes `hello` on protocol 7.
    let mut out = Vec::new();
    b.handle_session_event(
        SessionEvent::ProtocolMessage { id: 1, proto_id: 7, data: Bytes::from_static(b"hello") },
        &mut out,
    );
    match &out[0] {
        Output::Proto(ProtocolEvent::Received { session_context, proto_id: 7, data }) => {
            assert_eq!(session_context.id, 1);
            assert_eq!(&data[..], b"hello");
        }
        other => panic!("unexpected {:?}", other),
    }
}

#[test]
fn duplicate_connection_rejection() {
    let mut b = service(vec![]);
    open(&mut b, 9, SessionType::Outbound);
    let out = open(&mut b, 9, SessionType::Outbound);
    assert!(matches!(out[0], Output::RejectConnection));
    assert!(matches!(
        out[1],
        Output::Error(ServiceError::DialerError { error: DialerErrorKind::RepeatedConnection(1), .. })
    ));
    assert_eq!(b.open_session_ids(), vec![1]);
    let out = open(&mut b, 9, SessionType::Inbound);
    match &out[1] {
        Output::Error(ServiceError::ListenError { error: ListenErrorKind::RepeatedConnection(1), address }) => {
            assert!(address.same_as(&addr(1, 1337)))
        }
        other => panic!("unexpected {:?}", other),
    }
}

#[test]
fn peer_id_mismatch() {
    let mut b = service(vec![]);
    let mut out = Vec::new();
    b.handle_session_event(
        SessionEvent::HandshakeSuccess {
            public_key: Some(key(3)),
            address: addr_with_peer(3, 80, &[0xbb]),
            ty: SessionType::Outbound,
            listen_address: None,
        },
        &mut out,
    );
    assert!(matches!(out[0], Output::RejectConnection));
    assert!(matches!(
        out[1],
        Output::Error(ServiceError::DialerError { error: DialerErrorKind::PeerIdNotMatch, .. })
    ));
    assert!(b.open_session_ids().is_empty());
}

#[test]
fn backpressure_inbound_and_outbound() {
    let mut s = Service::new(vec![proto(7, ProtocolHandle::Callback)], false, config(1, 2, vec![]));
    open(&mut s, 1, SessionType::Inbound);
    assert!(s.accepts_session_events());
    let mut out = Vec::new();
    for token in 1..=3u64 {
        s.handle_service_task(
            ServiceTask::SetProtocolSessionNotify { session_id: 1, proto_id: 7, interval_ms: 10, token },
            Priority::Normal,
            &mut out,
        );
    }
    assert!(!s.accepts_session_events());
    let mut out = Vec::new();
    assert_eq!(s.flush_session_handle(0, 1, true, &mut out), SendResult::Pending);
    assert!(matches!(
        out[1],
        Output::Error(ServiceError::ProtocolHandleError { error: ProtocolHandleErrorKind::Block(Some(1)), .. })
    ));
    assert!(s.accepts_session_events());
    assert_eq!(s.flush_session_handle(0, 5, true, &mut out), SendResult::Drained);
    let tokens: Vec<u64> = out
        .iter()
        .filter_map(|o| match o {
            Output::ToSessionHandle { event: SessionProtocolEvent::SetNotify { token, .. }, .. } => Some(*token),
            _ => None,
        })
        .collect();
    assert_eq!(tokens, vec![1, 2, 3]);

    assert!(s.accepts_user_tasks());
    let mut out = Vec::new();
    for _ in 0..2 {
        s.handle_service_task(
            ServiceTask::ProtocolMessage { target: TargetSession::All, proto_id: 7, data: Bytes::from_static(b"x") },
            Priority::Normal,
            &mut out,
        );
    }
    assert!(!s.accepts_user_tasks());
    s.distribute_to_session(&vec![(1, true)], &mut out);
    assert!(s.accepts_user_tasks());
}

#[test]
fn dead_handler_shuts_the_service_down() {
    let mut s = Service::new(
        vec![ProtocolMeta {
            id: 3,
            name: String::from("/p/3"),
            service_handle: ProtocolHandle::Both,
            session_handle: ProtocolHandle::Empty,
        }],
        true,
        config(10, 10, vec![]),
    );
    let mut out = Vec::new();
    s.init_proto_handles(&mut out);
    assert!(matches!(out[0], Output::StartFutureTasks));
    assert!(matches!(out[1], Output::StartServiceHandle { proto_id: 3 }));
    assert_eq!(s.service_handle_ids(), vec![3]);
    let mut out = Vec::new();
    s.distribute_to_user_level(&vec![(4, false)], &vec![], &mut out);
    assert!(matches!(
        out[0],
        Output::Error(ServiceError::ProtocolHandleError { proto_id: 3, error: ProtocolHandleErrorKind::AbnormallyClosed(None) })
    ));
    assert!(s.run_state().shutdown);
}

#[test]
fn init_queues_init_event() {
    let mut s = Service::new(
        vec![ProtocolMeta {
            id: 3,
            name: String::from("/p/3"),
            service_handle: ProtocolHandle::Callback,
            session_handle: ProtocolHandle::Empty,
        }],
        false,
        config(10, 10, vec![]),
    );
    let mut out = Vec::new();
    s.init_proto_handles(&mut out);
    s.init_proto_handles(&mut out);
    assert_eq!(out.len(), 2);
    let mut out = Vec::new();
    assert_eq!(s.flush_service_handle(0, 8, true, &mut out), SendResult::Drained);
    assert!(matches!(out[0], Output::ToServiceHandle { proto_id: 3, event: ServiceProtocolEvent::Init }));
}

#[test]
fn listen_update_reaches_handlers() {
    let mut s = service(vec![]);
    open(&mut s, 1, SessionType::Inbound);
    let mut out = Vec::new();
    s.listen(addr(1, 1337), &mut out);
    assert_eq!(s.listen_addresses().len(), 1);
    assert!(s.listen_addresses()[0].same_as(&addr(1, 1337)));
    let mut out = Vec::new();
    s.flush_session_handle(0, 8, true, &mut out);
    assert!(matches!(&out[0], Output::ToSessionHandle { event: SessionProtocolEvent::Update { listen_addrs }, .. } if listen_addrs.len() == 1));
}

#[test]
fn disconnect_reports_one_close() {
    let mut s = service(vec![]);
    open(&mut s, 1, SessionType::Inbound);
    let mut out = Vec::new();
    s.handle_service_task(ServiceTask::Disconnect { session_id: 1 }, Priority::High, &mut out);
    s.distribute_to_session(&vec![(8, true)], &mut out);
    assert!(matches!(out[0], Output::ToSession { id: 1, priority: Priority::High, command: SessionCommand::SessionClose }));
    let mut out = Vec::new();
    s.handle_session_event(SessionEvent::SessionClose { id: 1 }, &mut out);
    s.handle_session_event(SessionEvent::SessionClose { id: 1 }, &mut out);
    s.handle_service_task(ServiceTask::Disconnect { session_id: 1 }, Priority::High, &mut out);
    assert_eq!(session_close_events(&out), 1);
    assert!(s.open_session_ids().is_empty());
    assert!(s.session_handle_keys().is_empty());
}

#[test]
fn handler_records_follow_sessions() {
    let mut s = service(vec![]);
    open(&mut s, 1, SessionType::Inbound);
    open(&mut s, 2, SessionType::Inbound);
    assert_eq!(s.session_handle_keys(), vec![(1, 7), (2, 7)]);
    let mut out = Vec::new();
    s.handle_session_event(SessionEvent::SessionClose { id: 1 }, &mut out);
    assert_eq!(s.session_handle_keys(), vec![(2, 7)]);
    for (sid, _) in s.session_handle_keys() {
        assert!(s.open_session_ids().contains(&sid));
    }
}

#[test]
fn shutdown_flag_stays_set() {
    let mut s = service(vec![]);
    assert!(s.check_termination(true));
    assert!(s.is_shutdown());
    let mut out = Vec::new();
    s.handle_service_task(ServiceTask::Listen { address: addr(1, 1) }, Priority::High, &mut out);
    open(&mut s, 4, SessionType::Inbound);
    assert!(!s.check_termination(true));
    assert!(s.is_shutdown());
}

#[test]
fn message_payload_arrives_unchanged() {
    let mut s = service(vec![]);
    open(&mut s, 1, SessionType::Outbound);
    let mut out = Vec::new();
    let payload = Bytes::from(vec![0u8, 1, 2, 255]);
    s.handle_service_task(
        ServiceTask::ProtocolMessage { target: TargetSession::All, proto_id: 7, data: payload.clone() },
        Priority::High,
        &mut out,
    );
    s.distribute_to_session(&vec![(8, true)], &mut out);
    match &out[0] {
        Output::ToSession { id: 1, priority: Priority::High, command: SessionCommand::ProtocolMessage { proto_id: 7, data } } => {
            assert_eq!(data, &payload)
        }
        other => panic!("unexpected {:?}", other),
    }
}

#[test]
fn graceful_shutdown() {
    let mut s = service(vec![]);
    open(&mut s, 1, SessionType::Inbound);
    open(&mut s, 2, SessionType::Inbound);
    let mut out = Vec::new();
    s.listen(addr(1, 1337), &mut out);
    let mut out = Vec::new();
    s.handle_service_task(ServiceTask::Shutdown(false), Priority::High, &mut out);
    assert!(matches!(out[0], Output::Event(ServiceEvent::ListenClose { .. })));
    assert!(matches!(out[1], Output::ClearFutureTasks));
    assert_eq!(out.len(), 2);
    assert!(!s.check_termination(true));
    s.distribute_to_session(&vec![(8, true), (8, true)], &mut out);
    let closes = out
        .iter()
        .filter(|o| matches!(o, Output::ToSession { command: SessionCommand::SessionClose, .. }))
        .count();
    assert_eq!(closes, 2);
    let mut out = Vec::new();
    s.handle_session_event(SessionEvent::SessionClose { id: 1 }, &mut out);
    s.handle_session_event(SessionEvent::SessionClose { id: 2 }, &mut out);
    assert_eq!(session_close_events(&out), 2);
    assert!(s.check_termination(true));
    assert!(s.is_shutdown());
}

#[test]
fn abrupt_shutdown() {
    let mut s = service(vec![]);
    open(&mut s, 1, SessionType::Inbound);
    open(&mut s, 2, SessionType::Inbound);
    let mut out = Vec::new();
    s.handle_service_task(ServiceTask::Shutdown(true), Priority::High, &mut out);
    assert!(matches!(out[0], Output::ClearFutureTasks));
    assert!(matches!(out[1], Output::CloseReceivers));
    assert_eq!(session_close_events(&out), 2);
    assert!(s.open_session_ids().is_empty());
    assert!(s.session_handle_keys().is_empty());
    assert!(!s.check_termination(false));
    assert!(s.check_termination(true));
}

#[test]
fn pending_counts_dials_and_listens() {
    let mut s = service(vec![]);
    let mut out = Vec::new();
    s.handle_service_task(ServiceTask::Dial { address: addr(5, 1), target: TargetProtocol::All }, Priority::High, &mut out);
    s.handle_service_task(ServiceTask::Dial { address: addr(5, 1), target: TargetProtocol::All }, Priority::High, &mut out);
    s.handle_service_task(ServiceTask::Listen { address: addr(1, 2) }, Priority::High, &mut out);
    assert_eq!(s.run_state().pending, 2);
    assert_eq!(out.len(), 2);
    s.handle_session_event(SessionEvent::DialError { address: addr(5, 1), error: String::from("refused") }, &mut out);
    assert_eq!(s.run_state().pending, 1);
    s.handle_session_event(SessionEvent::HandshakeError { ty: SessionType::Inbound, address: addr(9, 9), error: String::from("x") }, &mut out);
    assert_eq!(s.run_state().pending, 1);
    s.handle_session_event(SessionEvent::ListenError { address: addr(1, 2), error: String::from("busy") }, &mut out);
    assert_eq!(s.run_state().pending, 0);
    assert!(s.check_termination(true));
}

#[test]
fn max_connection_limit_rejects() {
    let mut cfg = config(10, 10, vec![]);
    cfg.max_connection_number = 1;
    let mut s = Service::new(vec![proto(7, ProtocolHandle::Callback)], false, cfg);
    open(&mut s, 1, SessionType::Inbound);
    open(&mut s, 2, SessionType::Inbound);
    let out = open(&mut s, 3, SessionType::Inbound);
    assert_eq!(s.open_session_ids(), vec![1, 2]);
    assert!(matches!(out[0], Output::RejectConnection));
}

#[test]
fn message_to_multi_targets_copies_per_mention() {
    let mut s = service(vec![]);
    open(&mut s, 1, SessionType::Inbound);
    open(&mut s, 2, SessionType::Inbound);
    let mut out = Vec::new();
    s.handle_service_task(
        ServiceTask::ProtocolMessage { target: TargetSession::Multi(vec![2, 2, 9]), proto_id: 7, data: Bytes::from_static(b"ab") },
        Priority::High,
        &mut out,
    );
    s.distribute_to_session(&vec![(8, true), (8, true)], &mut out);
    let to_two = out.iter().filter(|o| matches!(o, Output::ToSession { id: 2, .. })).count();
    let to_one = out.iter().filter(|o| matches!(o, Output::ToSession { id: 1, .. })).count();
    assert_eq!((to_one, to_two), (0, 2));
}

#[test]
fn protocol_events_for_subscribed_protocols() {
    let mut s = service(vec![7]);
    open(&mut s, 1, SessionType::Inbound);
    let mut out = Vec::new();
    s.handle_session_event(SessionEvent::ProtocolOpen { id: 1, proto_id: 7, version: String::from("1") }, &mut out);
    s.handle_session_event(SessionEvent::ProtocolOpen { id: 1, proto_id: 8, version: String::from("1") }, &mut out);
    assert_eq!(out.len(), 1);
    assert!(matches!(&out[0], Output::Proto(ProtocolEvent::Connected { proto_id: 7, version, .. }) if version == "1"));
    s.handle_session_event(SessionEvent::ProtocolClose { id: 1, proto_id: 7 }, &mut out);
    assert!(matches!(out[1], Output::Proto(ProtocolEvent::Disconnected { proto_id: 7, .. })));
    assert!(s.session_handle_keys().is_empty());
}

#[test]
fn protocol_open_task_queues_opens() {
    let mut s = Service::new(vec![proto(1, ProtocolHandle::Empty), proto(2, ProtocolHandle::Empty)], false, config(10, 10, vec![]));
    open(&mut s, 1, SessionType::Inbound);
    let mut out = Vec::new();
    s.handle_service_task(ServiceTask::ProtocolOpen { session_id: 1, target: TargetProtocol::All }, Priority::High, &mut out);
    s.handle_service_task(ServiceTask::ProtocolClose { session_id: 1, proto_id: 2 }, Priority::High, &mut out);
    s.distribute_to_session(&vec![(8, true)], &mut out);
    let cmds: Vec<String> = out
        .iter()
        .filter_map(|o| match o {
            Output::ToSession { command: SessionCommand::ProtocolOpen { proto_id }, .. } => Some(format!("open{}", proto_id)),
            Output::ToSession { command: SessionCommand::ProtocolClose { proto_id }, .. } => Some(format!("close{}", proto_id)),
            _ => None,
        })
        .collect();
    assert_eq!(cmds, vec!["open1", "open2", "close2"]);
}

#[test]
fn blocked_session_is_reported() {
    let mut s = service(vec![]);
    open(&mut s, 1, SessionType::Inbound);
    let mut out = Vec::new();
    s.handle_service_task(ServiceTask::Disconnect { session_id: 1 }, Priority::High, &mut out);
    s.handle_service_task(ServiceTask::Disconnect { session_id: 1 }, Priority::High, &mut out);
    s.flush_session(0, 1, true, &mut out);
    assert!(matches!(out[1], Output::Error(ServiceError::SessionBlocked { .. })));
}

#[test]
fn builders_set_limits() {
    let s = service(vec![]).max_frame_length(512 * 1024).yamux_config(128 * 1024);
    assert_eq!(s.protocol_configs().len(), 1);
}

#[test]
fn wait_handles_get_one_cancel_and_drain() {
    let mut s = Service::new(
        vec![ProtocolMeta {
            id: 3,
            name: String::from("/p/3"),
            service_handle: ProtocolHandle::Callback,
            session_handle: ProtocolHandle::Empty,
        }],
        false,
        config(10, 10, vec![]),
    );
    let mut out = Vec::new();
    s.init_proto_handles(&mut out);
    assert_eq!(s.wait_tasks(), vec![WaitTask::FutureTasks, WaitTask::ServiceHandle(3)]);
    assert!(s.check_termination(true));
    let mut out = Vec::new();
    assert!(!s.wait_handle_poll(&vec![true, false], &mut out));
    assert!(matches!(out[0], Output::Cancel { task: WaitTask::FutureTasks }));
    assert!(matches!(out[1], Output::Cancel { task: WaitTask::ServiceHandle(3) }));
    assert_eq!(s.wait_tasks(), vec![WaitTask::ServiceHandle(3)]);
    let mut out = Vec::new();
    assert!(s.wait_handle_poll(&vec![true], &mut out));
    assert!(out.is_empty());
}

#[test]
fn user_level_flush_reports_then_shuts_down() {
    let mut s = Service::new(
        vec![ProtocolMeta {
            id: 3,
            name: String::from("/p/3"),
            service_handle: ProtocolHandle::Callback,
            session_handle: ProtocolHandle::Callback,
        }],
        false,
        config(10, 10, vec![]),
    );
    let mut out = Vec::new();
    s.init_proto_handles(&mut out);
    open(&mut s, 1, SessionType::Inbound);
    s.handle_service_task(ServiceTask::SetProtocolNotify { proto_id: 3, interval_ms: 5, token: 8 }, Priority::High, &mut out);
    s.handle_service_task(
        ServiceTask::SetProtocolSessionNotify { session_id: 1, proto_id: 3, interval_ms: 5, token: 9 },
        Priority::High,
        &mut out,
    );
    let mut out = Vec::new();
    s.distribute_to_user_level(&vec![(1, true)], &vec![(0, false)], &mut out);
    assert!(matches!(out[0], Output::ToServiceHandle { proto_id: 3, event: ServiceProtocolEvent::Init }));
    assert!(matches!(
        out[1],
        Output::Error(ServiceError::ProtocolHandleError { proto_id: 3, error: ProtocolHandleErrorKind::Block(None) })
    ));
    assert!(matches!(
        out[2],
        Output::Error(ServiceError::ProtocolHandleError { proto_id: 3, error: ProtocolHandleErrorKind::AbnormallyClosed(Some(1)) })
    ));
    assert!(matches!(out[3], Output::ClearFutureTasks));
    assert!(s.run_state().shutdown);
    let mut out = Vec::new();
    s.distribute_to_session(&vec![(4, true)], &mut out);
    assert!(matches!(out[0], Output::ToSession { id: 1, priority: Priority::High, command: SessionCommand::SessionClose }));
}
