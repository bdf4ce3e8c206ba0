use bytes::{Bytes, BytesMut};
use srp::driver::{
    dial_outcome, helper_unavailable, DialReply, DriverAction, DriverEvent, LocalPump, MuxDriver,
    PumpAction, PumpEvent, SessionOutcome,
};
use srp::frontend::DialError;
use srp::mux::{drain_stream_output, MuxState};
use srp::session::{
    buffer_command_offline, delivery_failed, handle_command, open_stream, queue_command_offline,
    terminate_all, ClientSession, MuxCommand, PendingOpen, SessionAction, SessionStep,
};
use srp::{Frame, ResetCode, TargetAddr, PROTO_VERSION};

fn target() -> TargetAddr {
    TargetAddr::Domain("x".into(), 1)
}

#[test]
fn session_ids_are_random_and_nonzero() {
    let a = MuxDriver::new().session_id;
    let b = MuxDriver::new().session_id;
    assert_ne!(a, b, "session ids must differ between runs");
    assert_ne!(a, [0u8; 16], "session id must not be all zeroes");
}

#[test]
fn offline_writes_enter_the_retransmit_buffer_without_advancing_the_cursor() {
    let mut state = MuxState::new(4096);
    let id = state.alloc_stream(target());

    let actions = buffer_command_offline(
        MuxCommand::LocalData {
            stream_id: id,
            data: Bytes::from_static(b"offline-bytes"),
        },
        &mut state,
    );
    assert!(actions.is_empty());

    let st = state.get_mut(id).expect("stream alive");
    assert_eq!(st.tx.write_offset(), 13, "bytes must be buffered");
    assert_eq!(
        st.tx.send_cursor(),
        0,
        "cursor must NOT advance while offline"
    );
    assert!(st.tx.has_pending(), "bytes must still be pending");

    let frames = drain_stream_output(&mut state, id, 8);
    assert_eq!(frames.len(), 1);
    match &frames[0] {
        Frame::Data { offset, data, .. } => {
            assert_eq!(*offset, 0);
            assert_eq!(&data[..], b"offline-bytes");
        }
        f => panic!("unexpected {f:?}"),
    }
}

#[test]
fn offline_eof_defers_the_fin_frame() {
    let mut state = MuxState::new(4096);
    let id = state.alloc_stream(target());

    buffer_command_offline(MuxCommand::LocalEof { stream_id: id }, &mut state);
    assert!(state.get_mut(id).unwrap().local_fin);
    assert!(
        !state.get_mut(id).unwrap().tx.fin_queued(),
        "FIN must not be marked as sent while offline"
    );

    let frames = drain_stream_output(&mut state, id, 8);
    assert_eq!(frames, vec![Frame::Fin { stream_id: id }]);
}

#[test]
fn offline_window_exhaustion_resets_the_stream_instead_of_truncating() {
    let mut state = MuxState::new(16);
    let id = state.alloc_stream(target());

    let actions = buffer_command_offline(
        MuxCommand::LocalData {
            stream_id: id,
            data: Bytes::from_static(&[0u8; 64]),
        },
        &mut state,
    );

    assert!(state.get_mut(id).is_none(), "stream must be removed");
    assert_eq!(
        actions,
        vec![SessionAction::Terminate { stream_id: id, code: ResetCode::Internal }],
        "the app must be told the stream failed rather than silently losing bytes"
    );
}

#[test]
fn offline_close_drops_the_stream() {
    let mut state = MuxState::new(1024);
    let id = state.alloc_stream(target());
    buffer_command_offline(MuxCommand::LocalClose { stream_id: id }, &mut state);
    assert!(state.is_empty());
}

#[test]
fn terminate_all_clears_state_and_notifies() {
    let mut state = MuxState::new(1024);
    let id = state.alloc_stream(target());

    let actions = terminate_all(&mut state, ResetCode::UnknownStream);
    assert!(state.is_empty());
    assert_eq!(
        actions,
        vec![SessionAction::Terminate { stream_id: id, code: ResetCode::UnknownStream }]
    );
}

#[test]
fn the_handshake_asks_to_resume_only_with_streams() {
    let mut state = MuxState::new(1024);
    let (_, hello) = ClientSession::start(&state, [7; 16]);
    assert_eq!(
        hello,
        Frame::Hello { version: PROTO_VERSION, session_id: [7; 16], resume: false }
    );
    state.alloc_stream(target());
    let (_, hello) = ClientSession::start(&state, [7; 16]);
    assert_eq!(
        hello,
        Frame::Hello { version: PROTO_VERSION, session_id: [7; 16], resume: true }
    );
}

#[test]
fn a_resumed_session_asks_for_each_stream() {
    let mut state = MuxState::new(1024);
    let id = state.alloc_stream(target());
    let (mut session, _) = ClientSession::start(&state, [7; 16]);
    let step = session.on_frame(
        Frame::HelloAck { version: PROTO_VERSION, session_id: [7; 16], resumed: true },
        &mut state,
    );
    assert_eq!(
        step,
        SessionStep::Continue(vec![SessionAction::Send(Frame::Resume {
            stream_id: id,
            recv_offset: 0
        })])
    );
    assert!(session.handshake_done);
}

#[test]
fn a_helper_that_forgot_ends_the_streams() {
    let mut state = MuxState::new(1024);
    let id = state.alloc_stream(target());
    let (mut session, _) = ClientSession::start(&state, [7; 16]);
    let step = session.on_frame(
        Frame::HelloAck { version: PROTO_VERSION, session_id: [7; 16], resumed: false },
        &mut state,
    );
    assert_eq!(
        step,
        SessionStep::Continue(vec![SessionAction::Terminate {
            stream_id: id,
            code: ResetCode::UnknownStream
        }])
    );
    assert!(state.is_empty());
}

#[test]
fn another_version_loses_the_channel() {
    let mut state = MuxState::new(1024);
    let (mut session, _) = ClientSession::start(&state, [7; 16]);
    let step = session.on_frame(
        Frame::HelloAck { version: PROTO_VERSION + 1, session_id: [7; 16], resumed: false },
        &mut state,
    );
    assert!(matches!(step, SessionStep::Lost(_)), "{step:?}");
}

#[test]
fn bytes_are_taken_frame_by_frame() {
    let mut state = MuxState::new(1024);
    let id = state.alloc_stream(target());
    let (mut session, _) = ClientSession::start(&state, [7; 16]);
    let mut early = BytesMut::new();
    Frame::Ping { nonce: 3 }.encode(&mut early);
    assert!(
        matches!(session.poll(&mut early, &mut state), SessionStep::Lost(_)),
        "nothing may come before the handshake"
    );

    let mut inbound = BytesMut::new();
    Frame::HelloAck { version: PROTO_VERSION, session_id: [7; 16], resumed: true }
        .encode(&mut inbound);
    Frame::Ping { nonce: 3 }.encode(&mut inbound);
    Frame::Data { stream_id: id, offset: 0, data: Bytes::from_static(b"hi") }.encode(&mut inbound);
    inbound.extend_from_slice(&[0x20, 0, 0]);

    assert_eq!(
        session.poll(&mut inbound, &mut state),
        SessionStep::Continue(vec![SessionAction::Send(Frame::Resume {
            stream_id: id,
            recv_offset: 0
        })])
    );
    assert_eq!(
        session.poll(&mut inbound, &mut state),
        SessionStep::Continue(vec![SessionAction::Send(Frame::Pong { nonce: 3 })])
    );
    assert_eq!(
        session.poll(&mut inbound, &mut state),
        SessionStep::Continue(vec![
            SessionAction::Deliver { stream_id: id, data: Bytes::from_static(b"hi") },
            SessionAction::Send(Frame::Ack { stream_id: id, offset: 2 }),
        ])
    );
    assert_eq!(session.poll(&mut inbound, &mut state), SessionStep::Wait);
    assert_eq!(inbound.len(), 3);

    let mut bad = BytesMut::from(&[0xEEu8, 0, 0, 0, 0, 0, 0, 0, 0][..]);
    assert!(matches!(session.poll(&mut bad, &mut state), SessionStep::Lost(_)));
}

#[test]
fn commands_become_frames() {
    let mut state = MuxState::new(1024);
    let (id, actions) = open_stream(PendingOpen { addr: target(), request: 9 }, &mut state);
    assert_eq!(
        actions,
        vec![
            SessionAction::Send(Frame::Open { stream_id: id, addr: target() }),
            SessionAction::Opened { request: 9, stream_id: id },
        ]
    );
    let actions = handle_command(
        MuxCommand::LocalData { stream_id: id, data: Bytes::from_static(b"abc") },
        &mut state,
    );
    assert_eq!(
        actions,
        vec![SessionAction::Send(Frame::Data {
            stream_id: id,
            offset: 0,
            data: Bytes::from_static(b"abc")
        })]
    );
    let actions = handle_command(MuxCommand::LocalEof { stream_id: id }, &mut state);
    assert_eq!(actions, vec![SessionAction::Send(Frame::Fin { stream_id: id })]);
    let actions = handle_command(MuxCommand::LocalClose { stream_id: id }, &mut state);
    assert!(actions.contains(&SessionAction::Forget { stream_id: id }), "{actions:?}");
    assert!(
        actions.contains(&SessionAction::Send(Frame::Reset {
            stream_id: id,
            code: ResetCode::Normal
        })),
        "{actions:?}"
    );
    assert!(state.is_empty());
}

#[test]
fn a_full_window_ends_the_stream() {
    let mut state = MuxState::new(4);
    let id = state.alloc_stream(target());
    let actions = handle_command(
        MuxCommand::LocalData { stream_id: id, data: Bytes::from_static(b"abcdef") },
        &mut state,
    );
    assert!(state.is_empty());
    assert_eq!(
        actions,
        vec![
            SessionAction::Send(Frame::Reset { stream_id: id, code: ResetCode::Internal }),
            SessionAction::Forget { stream_id: id },
        ]
    );
}

#[test]
fn requests_wait_for_a_connection() {
    let mut state = MuxState::new(1024);
    let mut pending = Vec::new();
    let actions = queue_command_offline(
        MuxCommand::Open { addr: target(), request: 4 },
        &mut state,
        &mut pending,
    );
    assert!(actions.is_empty());
    assert_eq!(pending.len(), 1);
    assert!(state.is_empty());

    let (mut session, _) = ClientSession::start(&state, [1; 16]);
    assert!(session.release_pending(&mut pending, &mut state).is_empty());
    assert_eq!(pending.len(), 1, "nothing is opened before the handshake");
    session.on_frame(
        Frame::HelloAck { version: PROTO_VERSION, session_id: [1; 16], resumed: false },
        &mut state,
    );
    let actions = session.release_pending(&mut pending, &mut state);
    assert!(pending.is_empty());
    assert_eq!(state.len(), 1);
    assert!(matches!(actions[0], SessionAction::Send(Frame::Open { .. })), "{actions:?}");
    assert!(matches!(actions[1], SessionAction::Opened { request: 4, .. }), "{actions:?}");
}

#[test]
fn a_local_side_that_takes_nothing_ends_its_stream() {
    let mut state = MuxState::new(1024);
    let id = state.alloc_stream(target());
    let actions = delivery_failed(id, &mut state);
    assert!(state.is_empty());
    assert!(
        actions.iter().any(|a| matches!(a, SessionAction::Send(Frame::Reset { .. }))),
        "{actions:?}"
    );
}

#[test]
fn the_driver_goes_on_until_shut_down() {
    let mut d = MuxDriver::with_session([3; 16]);
    assert_eq!(d.session_id, [3; 16]);
    assert_eq!(d.supervise(DriverEvent::Connected), DriverAction::StartHelper);
    assert_eq!(
        d.supervise(DriverEvent::HelperFailed),
        DriverAction::ReportBroken { pause_millis: 500 }
    );
    assert_eq!(
        d.supervise(DriverEvent::HelperStarted),
        DriverAction::RunSession { again: false }
    );
    assert_eq!(
        d.supervise(DriverEvent::Ended(SessionOutcome::ChannelLost)),
        DriverAction::ReportBroken { pause_millis: 0 }
    );
    assert_eq!(
        d.supervise(DriverEvent::HelperStarted),
        DriverAction::RunSession { again: true }
    );
    assert_eq!(
        d.supervise(DriverEvent::Ended(SessionOutcome::Shutdown)),
        DriverAction::Stop
    );
    assert_eq!(d.supervise(DriverEvent::Closed), DriverAction::Stop);
}

#[test]
fn dial_replies_are_told() {
    assert_eq!(dial_outcome(DialReply::Answered(Ok(()))), Ok(()));
    assert_eq!(
        dial_outcome(DialReply::Answered(Err(DialError::Forbidden))),
        Err(DialError::Forbidden)
    );
    assert_eq!(dial_outcome(DialReply::DriverGone), Err(DialError::Internal));
    assert_eq!(dial_outcome(DialReply::TimedOut), Err(DialError::TimedOut));
    assert_eq!(helper_unavailable(), "helper mode is not available");
}

#[test]
fn the_pump_forwards_writes_and_the_end() {
    let mut p = LocalPump::new(7);
    match p.on_event(PumpEvent::LocalRead(Bytes::from_static(b"hello"))) {
        PumpAction::Command(MuxCommand::LocalData { stream_id, data }) => {
            assert_eq!(stream_id, 7);
            assert_eq!(&data[..], b"hello");
        }
        other => panic!("expected LocalData, got {other:?}"),
    }
    assert!(!p.local_eof);
    match p.on_event(PumpEvent::LocalRead(Bytes::new())) {
        PumpAction::Command(MuxCommand::LocalEof { stream_id }) => assert_eq!(stream_id, 7),
        other => panic!("expected LocalEof, got {other:?}"),
    }
    assert!(p.local_eof);
}

#[test]
fn the_pump_delivers_and_shuts() {
    let mut p = LocalPump::new(1);
    match p.on_event(PumpEvent::Inbound(Bytes::from_static(b"world"))) {
        PumpAction::Write(data) => assert_eq!(&data[..], b"world"),
        other => panic!("{other:?}"),
    }
    assert!(matches!(p.on_event(PumpEvent::RemoteFin), PumpAction::Shutdown));
    assert!(p.remote_fin);
    assert!(matches!(p.on_event(PumpEvent::Terminated), PumpAction::ShutdownAndStop));
    assert!(matches!(p.on_event(PumpEvent::InboundClosed), PumpAction::ShutdownAndStop));
    assert!(matches!(p.on_event(PumpEvent::SessionGone), PumpAction::Stop));
    for event in [PumpEvent::LocalReadFailed, PumpEvent::LocalWriteFailed] {
        assert!(matches!(
            p.on_event(event),
            PumpAction::CommandAndStop(MuxCommand::LocalClose { stream_id: 1 })
        ));
    }
}

#[test]
fn a_long_gap_is_sent_whole_after_a_reconnect() {
    let window: usize = 4 * 1024 * 1024;
    let mut state = MuxState::new(window as u64);
    let id = state.alloc_stream(target());
    let chunk = Bytes::from(vec![7u8; 32 * 1024]);
    for _ in 0..96 {
        let data = MuxCommand::LocalData { stream_id: id, data: chunk.clone() };
        assert!(buffer_command_offline(data, &mut state).is_empty());
    }
    assert!(buffer_command_offline(MuxCommand::LocalEof { stream_id: id }, &mut state).is_empty());

    let (mut session, _) = ClientSession::start(&state, [1; 16]);
    let ack = Frame::HelloAck { version: PROTO_VERSION, session_id: [1; 16], resumed: true };
    assert!(matches!(session.on_frame(ack, &mut state), SessionStep::Continue(_)));
    let actions = match session.on_frame(Frame::ResumeOk { stream_id: id, recv_offset: 100 }, &mut state) {
        SessionStep::Continue(actions) => actions,
        other => panic!("{other:?}"),
    };
    let mut next: u64 = 100;
    for action in &actions[..actions.len() - 1] {
        match action {
            SessionAction::Send(Frame::Data { stream_id, offset, data }) => {
                assert_eq!((*stream_id, *offset), (id, next));
                next += data.len() as u64;
            }
            other => panic!("{other:?}"),
        }
    }
    assert_eq!(next, 96 * 32 * 1024, "all of it, at once");
    assert_eq!(actions.last(), Some(&SessionAction::Send(Frame::Fin { stream_id: id })));
}
