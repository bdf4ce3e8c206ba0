use bytes::{Bytes, BytesMut};
use srp::allow::{AllowError, AllowList};
use srp::helper::{
    HelperAction, HelperArgError, HelperSession, HelperStep, SessionConfig, MAX_STREAMS,
};
use srp::stream::{Downlink, StreamEvent, Uplink, UplinkStep};
use srp::{Frame, ProtoError, ResetCode, TargetAddr, DEFAULT_STREAM_WINDOW, PROTO_VERSION};

fn loopback(port: u16) -> TargetAddr {
    TargetAddr::V4([127, 0, 0, 1], port)
}

fn send(frame: Frame) -> HelperAction {
    HelperAction::Send(frame)
}

/// What a frame calls for, the session going on.
fn answer(session: &mut HelperSession, frame: Frame) -> Vec<HelperAction> {
    let (actions, go_on) = session.handle_frame(frame);
    assert!(go_on, "the session must go on");
    actions
}

/// Shakes hands and says whether the session was resumed.
fn handshake(session: &mut HelperSession, id: u8, resume: bool) -> bool {
    let actions = answer(
        session,
        Frame::Hello { version: PROTO_VERSION, session_id: [id; 16], resume },
    );
    match actions.last() {
        Some(HelperAction::Send(Frame::HelloAck { version, session_id, resumed })) => {
            assert_eq!(*version, PROTO_VERSION);
            assert_eq!(*session_id, [id; 16]);
            *resumed
        }
        other => panic!("expected HelloAck, got {other:?}"),
    }
}

fn open(session: &mut HelperSession, stream_id: u32) {
    assert_eq!(
        answer(session, Frame::Open { stream_id, addr: loopback(80) }),
        vec![HelperAction::Spawn { stream_id, addr: loopback(80) }]
    );
}

fn started() -> HelperSession {
    let mut session = HelperSession::new(SessionConfig::default());
    assert!(!handshake(&mut session, 1, false));
    session
}

#[test]
fn hello_version_mismatch_nacks_then_exits() {
    let mut session = HelperSession::new(SessionConfig::default());
    let (actions, go_on) = session.handle_frame(Frame::Hello {
        version: PROTO_VERSION.wrapping_add(1),
        session_id: [9; 16],
        resume: false,
    });
    assert_eq!(
        actions,
        vec![send(Frame::HelloAck {
            version: PROTO_VERSION,
            session_id: [9; 16],
            resumed: false,
        })]
    );
    assert!(!go_on);
}

#[test]
fn hello_resume_requires_same_session_and_live_streams() {
    let mut session = HelperSession::new(SessionConfig::default());
    assert!(!handshake(&mut session, 7, false), "nothing to resume at first");
    assert!(!handshake(&mut session, 7, true), "no stream to go on with");
    open(&mut session, 1);
    assert!(handshake(&mut session, 7, true), "same session and a live stream");
    assert_eq!(session.stream_count(), 1);
    assert!(!handshake(&mut session, 8, true), "another session must not be resumed");
    assert_eq!(session.stream_count(), 0);
    assert!(!handshake(&mut session, 8, true), "no stream is left");
}

#[test]
fn allow_list_blocks_and_permits() {
    let config = SessionConfig {
        allow: AllowList::parse(&["*:8080"]).expect("rule"),
        ..SessionConfig::default()
    };
    let mut session = HelperSession::new(config);
    handshake(&mut session, 1, false);
    assert_eq!(
        answer(&mut session, Frame::Open { stream_id: 1, addr: loopback(8081) }),
        vec![send(Frame::OpenErr {
            stream_id: 1,
            code: ResetCode::Forbidden,
            msg: "target rejected by allow list".into(),
        })]
    );
    assert_eq!(
        answer(&mut session, Frame::Open { stream_id: 2, addr: loopback(8080) }),
        vec![HelperAction::Spawn { stream_id: 2, addr: loopback(8080) }]
    );
}

#[test]
fn control_frames_get_protocol_replies() {
    let mut session = started();
    let reset = || vec![send(Frame::Reset { stream_id: 99, code: ResetCode::UnknownStream })];
    assert_eq!(
        answer(
            &mut session,
            Frame::Data { stream_id: 99, offset: 0, data: Bytes::from_static(b"x") }
        ),
        reset()
    );
    assert_eq!(
        answer(&mut session, Frame::Resume { stream_id: 99, recv_offset: 0 }),
        vec![send(Frame::ResumeErr { stream_id: 99, code: ResetCode::UnknownStream })]
    );
    assert_eq!(answer(&mut session, Frame::Fin { stream_id: 99 }), reset());
    assert_eq!(
        answer(&mut session, Frame::Ping { nonce: 0xdead_beef }),
        vec![send(Frame::Pong { nonce: 0xdead_beef })]
    );
    assert!(answer(&mut session, Frame::Ack { stream_id: 99, offset: 1 }).is_empty());
    assert!(answer(&mut session, Frame::OpenOk { stream_id: 99 }).is_empty());
}

#[test]
fn data_is_handed_to_the_stream() {
    let mut session = started();
    open(&mut session, 3);
    assert_eq!(
        answer(
            &mut session,
            Frame::Data { stream_id: 3, offset: 0, data: Bytes::from_static(b"payload") }
        ),
        vec![HelperAction::Hand {
            stream_id: 3,
            item: Downlink::Data { bytes: Bytes::from_static(b"payload"), delivered: 7 },
        }]
    );
    assert_eq!(
        answer(
            &mut session,
            Frame::Data { stream_id: 3, offset: 0, data: Bytes::from_static(b"pay") }
        ),
        vec![HelperAction::Hand {
            stream_id: 3,
            item: Downlink::Duplicate { delivered: 7 },
        }]
    );
    assert_eq!(
        answer(&mut session, Frame::Fin { stream_id: 3 }),
        vec![HelperAction::Hand { stream_id: 3, item: Downlink::Fin }]
    );
    assert!(answer(&mut session, Frame::Fin { stream_id: 3 }).is_empty(), "told once");
}

#[test]
fn finished_streams_are_dropped() {
    let mut session = started();
    open(&mut session, 5);
    answer(&mut session, Frame::Fin { stream_id: 5 });
    assert_eq!(session.stream_count(), 1);
    assert_eq!(
        session.handle_stream_event(StreamEvent::EgressDone(5)),
        vec![HelperAction::Stop { stream_id: 5 }]
    );
    assert_eq!(session.stream_count(), 0);

    open(&mut session, 6);
    session.stream_mut(6).unwrap().tx.push(b"tail");
    session.stream_mut(6).unwrap().tx.next_unsent(16);
    answer(&mut session, Frame::Fin { stream_id: 6 });
    assert!(session.handle_stream_event(StreamEvent::EgressDone(6)).is_empty());
    assert_eq!(session.stream_count(), 1, "the client may still resume");
    assert_eq!(
        answer(&mut session, Frame::Ack { stream_id: 6, offset: 4 }),
        vec![HelperAction::Wake { stream_id: 6 }, HelperAction::Stop { stream_id: 6 }]
    );
    assert_eq!(session.stream_count(), 0);
}

#[test]
fn stream_limit_is_enforced() {
    let config = SessionConfig { max_streams: 4, ..SessionConfig::default() };
    let mut session = HelperSession::new(config);
    handshake(&mut session, 1, false);
    for id in 1..=4u32 {
        open(&mut session, id);
    }
    assert_eq!(
        answer(&mut session, Frame::Open { stream_id: 5, addr: loopback(80) }),
        vec![send(Frame::OpenErr {
            stream_id: 5,
            code: ResetCode::Internal,
            msg: "too many streams".into(),
        })]
    );
    assert_eq!(session.stream_count(), 4);
}

#[test]
fn duplicate_stream_id_is_rejected() {
    let mut session = started();
    open(&mut session, 6);
    assert_eq!(
        answer(&mut session, Frame::Open { stream_id: 6, addr: loopback(80) }),
        vec![send(Frame::OpenErr {
            stream_id: 6,
            code: ResetCode::Internal,
            msg: "duplicate stream id".into(),
        })]
    );
    assert_eq!(session.stream_count(), 1);
}

#[test]
fn resume_live_stream_rewinds_and_resends() {
    let mut session = started();
    open(&mut session, 8);
    answer(
        &mut session,
        Frame::Data { stream_id: 8, offset: 0, data: Bytes::from_static(b"abc") },
    );
    let mut up = Uplink::new(8);
    let tx = &mut session.stream_mut(8).unwrap().tx;
    assert_eq!(up.on_read(b"0123456789", tx), Ok(()));
    match up.step(tx) {
        UplinkStep::Send(Frame::Data { stream_id: 8, offset: 0, data }) => {
            assert_eq!(&data[..], b"0123456789")
        }
        other => panic!("{other:?}"),
    }

    assert_eq!(
        answer(&mut session, Frame::Resume { stream_id: 8, recv_offset: 4 }),
        vec![
            HelperAction::Wake { stream_id: 8 },
            send(Frame::ResumeOk { stream_id: 8, recv_offset: 3 }),
        ]
    );
    match up.step(&mut session.stream_mut(8).unwrap().tx) {
        UplinkStep::Send(Frame::Data { stream_id: 8, offset: 4, data }) => {
            assert_eq!(&data[..], b"456789", "exactly the gap is sent again")
        }
        other => panic!("{other:?}"),
    }
}

#[test]
fn impossible_resume_destroys_stream() {
    let mut session = started();
    open(&mut session, 9);
    assert_eq!(
        answer(&mut session, Frame::Resume { stream_id: 9, recv_offset: 4096 }),
        vec![
            HelperAction::Stop { stream_id: 9 },
            send(Frame::ResumeErr { stream_id: 9, code: ResetCode::ResumeImpossible }),
        ]
    );
    assert_eq!(
        answer(
            &mut session,
            Frame::Data { stream_id: 9, offset: 0, data: Bytes::from_static(b"z") }
        ),
        vec![send(Frame::Reset { stream_id: 9, code: ResetCode::UnknownStream })]
    );
}

#[test]
fn data_gap_resets_stream() {
    let mut session = started();
    open(&mut session, 10);
    assert_eq!(
        answer(
            &mut session,
            Frame::Data { stream_id: 10, offset: 64, data: Bytes::from_static(b"gap") }
        ),
        vec![
            HelperAction::Stop { stream_id: 10 },
            send(Frame::Reset { stream_id: 10, code: ResetCode::Internal }),
        ]
    );
}

#[test]
fn bogus_ack_resets_stream() {
    let mut session = started();
    open(&mut session, 11);
    assert_eq!(
        answer(&mut session, Frame::Ack { stream_id: 11, offset: 12345 }),
        vec![
            HelperAction::Stop { stream_id: 11 },
            send(Frame::Reset { stream_id: 11, code: ResetCode::Internal }),
        ]
    );
}

#[test]
fn client_reset_closes_egress_socket() {
    let mut session = started();
    open(&mut session, 12);
    assert_eq!(
        answer(&mut session, Frame::Reset { stream_id: 12, code: ResetCode::Normal }),
        vec![HelperAction::Stop { stream_id: 12 }]
    );
    assert_eq!(session.stream_count(), 0);
}

#[test]
fn stdin_eof_closes_all_egress() {
    let mut session = started();
    open(&mut session, 13);
    open(&mut session, 14);
    let mut stopped = session.close_all();
    stopped.sort_by_key(|a| match a {
        HelperAction::Stop { stream_id } => *stream_id,
        other => panic!("{other:?}"),
    });
    assert_eq!(
        stopped,
        vec![HelperAction::Stop { stream_id: 13 }, HelperAction::Stop { stream_id: 14 }]
    );
    assert_eq!(session.stream_count(), 0);
}

#[test]
fn failed_streams_are_told_once() {
    let mut session = started();
    open(&mut session, 4);
    assert_eq!(
        session.handle_stream_event(StreamEvent::Failed { stream_id: 4, reset: None }),
        vec![HelperAction::Stop { stream_id: 4 }]
    );
    open(&mut session, 5);
    assert_eq!(
        session.handle_stream_event(StreamEvent::Failed {
            stream_id: 5,
            reset: Some(ResetCode::Internal)
        }),
        vec![
            HelperAction::Stop { stream_id: 5 },
            send(Frame::Reset { stream_id: 5, code: ResetCode::Internal }),
        ]
    );
    open(&mut session, 6);
    assert_eq!(
        session.handover_failed(6),
        vec![
            HelperAction::Stop { stream_id: 6 },
            send(Frame::Reset { stream_id: 6, code: ResetCode::Internal }),
        ]
    );
}

#[test]
fn send_window_applies_backpressure() {
    let payload = vec![7u8; 64 * 1024];
    let config = SessionConfig { stream_window: 4096, ..SessionConfig::default() };
    let mut session = HelperSession::new(config);
    handshake(&mut session, 1, false);
    open(&mut session, 14);

    let mut up = Uplink::new(14);
    let mut read = 0usize;
    let mut got: Vec<u8> = Vec::new();
    while got.len() < payload.len() {
        match up.step(&mut session.stream_mut(14).unwrap().tx) {
            UplinkStep::Read(n) => {
                let end = (read + n).min(payload.len());
                let tx = &mut session.stream_mut(14).unwrap().tx;
                assert_eq!(up.on_read(&payload[read..end], tx), Ok(()));
                read = end;
            }
            UplinkStep::Send(Frame::Data { stream_id: 14, offset, data }) => {
                assert_eq!(offset as usize, got.len(), "offsets must be contiguous");
                assert!(data.len() <= 4096, "no frame may exceed the window");
                got.extend_from_slice(&data);
                assert!(read - got.len() <= 4096);
            }
            UplinkStep::Wait => {
                let offset = got.len() as u64;
                assert_eq!(
                    answer(&mut session, Frame::Ack { stream_id: 14, offset }),
                    vec![HelperAction::Wake { stream_id: 14 }]
                );
            }
            other => panic!("{other:?}"),
        }
    }
    assert_eq!(got, payload, "no byte may be lost");
}

#[test]
fn bytes_are_polled_frame_by_frame() {
    let mut session = started();
    let mut inbound = BytesMut::new();
    Frame::Ping { nonce: 5 }.encode(&mut inbound);
    inbound.extend_from_slice(&[0x40, 0, 0]);
    assert_eq!(
        session.poll(&mut inbound),
        HelperStep::Continue(vec![send(Frame::Pong { nonce: 5 })])
    );
    assert_eq!(session.poll(&mut inbound), HelperStep::Wait);
    assert_eq!(inbound.len(), 3);

    let mut bad = BytesMut::from(&[0xEEu8, 0, 0, 0, 0, 0, 0, 0, 0][..]);
    assert_eq!(session.poll(&mut bad), HelperStep::Broken(ProtoError::BadFrameType(0xEE)));

    let mut old = BytesMut::new();
    Frame::Hello { version: 0, session_id: [0; 16], resume: false }.encode(&mut old);
    assert!(matches!(session.poll(&mut old), HelperStep::Stop(_)));
}

#[test]
fn cli_maps_to_session_config() {
    let config = SessionConfig::from_args(&[], 0, DEFAULT_STREAM_WINDOW).expect("defaults");
    assert_eq!(config.max_streams, MAX_STREAMS);
    assert_eq!(config.stream_window, DEFAULT_STREAM_WINDOW);
    assert!(config.idle_timeout_secs.is_none(), "no idle timeout by default");
    assert!(config.allow.is_empty(), "everything is permitted by default");

    let config = SessionConfig::from_args(&["*.example.com:443"], 30, 8192).expect("explicit");
    assert_eq!(config.idle_timeout_secs, Some(30));
    assert_eq!(config.stream_window, 8192);
    assert!(!config.allow.is_empty());

    assert_eq!(
        SessionConfig::from_args(&[], 0, 0).err(),
        Some(HelperArgError::ZeroWindow),
        "a window of zero must be rejected"
    );
    assert_eq!(
        SessionConfig::from_args(&["nope:port"], 0, 1).err(),
        Some(HelperArgError::Allow(AllowError::InvalidPort)),
        "a malformed pattern must be rejected"
    );
}

#[test]
fn the_target_may_answer_after_the_client_has_stopped() {
    let mut session = started();
    open(&mut session, 1);
    assert_eq!(
        answer(&mut session, Frame::Fin { stream_id: 1 }),
        vec![HelperAction::Hand { stream_id: 1, item: Downlink::Fin }]
    );
    let stream = session.stream_mut(1).expect("half open");
    assert_eq!(stream.tx.push(b"late answer"), 11);
    let mut up = Uplink::new(1);
    assert!(matches!(
        up.step(&mut stream.tx),
        UplinkStep::Send(Frame::Data { stream_id: 1, offset: 0, .. })
    ));
}

#[test]
fn frames_for_unknown_streams_are_answered() {
    let mut session = started();
    let reset = vec![send(Frame::Reset { stream_id: 9, code: ResetCode::UnknownStream })];
    let data = Frame::Data { stream_id: 9, offset: 3, data: Bytes::from_static(b"x") };
    assert_eq!(answer(&mut session, data), reset);
    assert_eq!(answer(&mut session, Frame::Fin { stream_id: 9 }), reset);
    assert_eq!(
        answer(&mut session, Frame::Resume { stream_id: 9, recv_offset: 0 }),
        vec![send(Frame::ResumeErr { stream_id: 9, code: ResetCode::UnknownStream })]
    );
    assert!(answer(&mut session, Frame::Ack { stream_id: 9, offset: 1 }).is_empty());
    let late = Frame::Reset { stream_id: 9, code: ResetCode::Normal };
    assert!(answer(&mut session, late).is_empty());
}
