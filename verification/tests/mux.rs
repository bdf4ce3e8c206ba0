use bytes::{Bytes, BytesMut};
use srp::mux::{apply_frame, drain_stream_output, encode_all, FrameEffect, MuxState};
use srp::{Frame, ResetCode, StreamId, TargetAddr, DATA_CHUNK};

fn addr() -> TargetAddr {
    TargetAddr::Domain("example.com".into(), 443)
}

fn state_with_stream() -> (MuxState, StreamId) {
    let mut s = MuxState::new(64 * 1024);
    let id = s.alloc_stream(addr());
    (s, id)
}

#[test]
fn alloc_never_returns_zero_or_duplicates() {
    let mut s = MuxState::new(1024);
    let mut seen = std::collections::HashSet::new();
    for _ in 0..1000 {
        let id = s.alloc_stream(addr());
        assert_ne!(id, 0, "0 is reserved for stream-less frames");
        assert!(seen.insert(id), "duplicate stream id {id}");
    }
    assert_eq!(s.len(), 1000);
}

#[test]
fn data_is_delivered_and_acked() {
    let (mut s, id) = state_with_stream();
    let effects = apply_frame(
        &mut s,
        Frame::Data {
            stream_id: id,
            offset: 0,
            data: Bytes::from_static(b"hello"),
        },
    )
    .unwrap();

    assert_eq!(
        effects[0],
        FrameEffect::Deliver {
            stream_id: id,
            data: Bytes::from_static(b"hello")
        }
    );
    assert_eq!(
        effects[1],
        FrameEffect::Reply(vec![Frame::Ack {
            stream_id: id,
            offset: 5
        }])
    );
}

#[test]
fn duplicate_data_is_dropped_but_reacked() {
    let (mut s, id) = state_with_stream();
    apply_frame(
        &mut s,
        Frame::Data {
            stream_id: id,
            offset: 0,
            data: Bytes::from_static(b"abcdef"),
        },
    )
    .unwrap();

    let effects = apply_frame(
        &mut s,
        Frame::Data {
            stream_id: id,
            offset: 0,
            data: Bytes::from_static(b"abc"),
        },
    )
    .unwrap();

    assert!(
        !effects
            .iter()
            .any(|e| matches!(e, FrameEffect::Deliver { .. })),
        "duplicate bytes must not be delivered twice: {effects:?}"
    );
    assert_eq!(
        effects[0],
        FrameEffect::Reply(vec![Frame::Ack {
            stream_id: id,
            offset: 6
        }]),
        "must re-announce the ack so the peer stops resending"
    );
}

#[test]
fn partially_overlapping_retransmit_delivers_only_fresh_bytes() {
    let (mut s, id) = state_with_stream();
    apply_frame(
        &mut s,
        Frame::Data {
            stream_id: id,
            offset: 0,
            data: Bytes::from_static(b"abcd"),
        },
    )
    .unwrap();

    let effects = apply_frame(
        &mut s,
        Frame::Data {
            stream_id: id,
            offset: 2,
            data: Bytes::from_static(b"cdef"),
        },
    )
    .unwrap();

    assert_eq!(
        effects[0],
        FrameEffect::Deliver {
            stream_id: id,
            data: Bytes::from_static(b"ef")
        }
    );
}

#[test]
fn unknown_stream_data_triggers_reset() {
    let mut s = MuxState::new(1024);
    let effects = apply_frame(
        &mut s,
        Frame::Data {
            stream_id: 99,
            offset: 0,
            data: Bytes::from_static(b"x"),
        },
    )
    .unwrap();
    assert_eq!(
        effects[0],
        FrameEffect::Reply(vec![Frame::Reset {
            stream_id: 99,
            code: ResetCode::UnknownStream
        }])
    );
}

#[test]
fn ping_is_answered_with_pong() {
    let mut s = MuxState::new(1024);
    let effects = apply_frame(&mut s, Frame::Ping { nonce: 7 }).unwrap();
    assert_eq!(
        effects[0],
        FrameEffect::Reply(vec![Frame::Pong { nonce: 7 }])
    );
}

#[test]
fn open_err_terminates_the_stream() {
    let (mut s, id) = state_with_stream();
    let effects = apply_frame(
        &mut s,
        Frame::OpenErr {
            stream_id: id,
            code: ResetCode::ConnectFailed,
            msg: "refused".into(),
        },
    )
    .unwrap();
    assert_eq!(
        effects[0],
        FrameEffect::Terminate {
            stream_id: id,
            code: ResetCode::ConnectFailed
        }
    );
    assert!(s.get_mut(id).unwrap().is_finished());
}

#[test]
fn fin_marks_remote_half_close() {
    let (mut s, id) = state_with_stream();
    let effects = apply_frame(&mut s, Frame::Fin { stream_id: id }).unwrap();
    assert_eq!(effects[0], FrameEffect::RemoteFin { stream_id: id });
    assert!(s.get_mut(id).unwrap().remote_fin);
    assert!(!s.get_mut(id).unwrap().is_finished());
}

#[test]
fn drain_produces_chunked_data_frames_then_fin() {
    let (mut s, id) = state_with_stream();
    let payload = vec![0xABu8; DATA_CHUNK + 100];
    {
        let st = s.get_mut(id).unwrap();
        assert_eq!(st.tx.push(&payload), payload.len());
        st.local_fin = true;
    }

    let frames = drain_stream_output(&mut s, id, 16);
    assert_eq!(frames.len(), 3, "got {frames:?}");
    match &frames[0] {
        Frame::Data { offset, data, .. } => {
            assert_eq!(*offset, 0);
            assert_eq!(data.len(), DATA_CHUNK);
        }
        f => panic!("unexpected {f:?}"),
    }
    match &frames[1] {
        Frame::Data { offset, data, .. } => {
            assert_eq!(*offset, DATA_CHUNK as u64);
            assert_eq!(data.len(), 100);
        }
        f => panic!("unexpected {f:?}"),
    }
    assert_eq!(frames[2], Frame::Fin { stream_id: id });
}

#[test]
fn resume_after_disconnect_loses_no_bytes() {
    let (mut s, id) = state_with_stream();
    let payload: Vec<u8> = (0..3000u32).map(|i| (i % 251) as u8).collect();
    s.get_mut(id).unwrap().tx.push(&payload);

    let frames = drain_stream_output(&mut s, id, 1000);
    let total: usize = frames
        .iter()
        .filter_map(|f| match f {
            Frame::Data { data, .. } => Some(data.len()),
            _ => None,
        })
        .sum();
    assert_eq!(total, 3000);

    let helper_received = 1200u64;

    let effects = apply_frame(
        &mut s,
        Frame::ResumeOk {
            stream_id: id,
            recv_offset: helper_received,
        },
    )
    .unwrap();
    assert_eq!(
        effects[0],
        FrameEffect::Resumed {
            stream_id: id,
            gap: 3000 - helper_received
        },
        "must plan to resend exactly the missing tail"
    );

    let resent = drain_stream_output(&mut s, id, 1000);
    let mut rebuilt = Vec::new();
    for f in &resent {
        match f {
            Frame::Data { offset, data, .. } => {
                assert_eq!(
                    *offset as usize,
                    helper_received as usize + rebuilt.len(),
                    "resend offsets must be contiguous from the gap start"
                );
                rebuilt.extend_from_slice(data);
            }
            other => panic!("unexpected frame {other:?}"),
        }
    }
    assert_eq!(rebuilt.len(), 1800);
    assert_eq!(
        rebuilt,
        &payload[helper_received as usize..],
        "resent bytes must match the original stream exactly"
    );
}

#[test]
fn unresumable_gap_resets_the_stream_instead_of_losing_data() {
    let mut s = MuxState::new(1024);
    let id = s.alloc_stream(addr());
    {
        let st = s.get_mut(id).unwrap();
        st.tx.push(&[0u8; 1024]);
        let _ = st.tx.next_unsent(1024);
        st.tx.ack(1024).unwrap();
    }

    let effects = apply_frame(
        &mut s,
        Frame::ResumeOk {
            stream_id: id,
            recv_offset: 100,
        },
    )
    .unwrap();

    assert!(
        effects.iter().any(|e| matches!(
            e,
            FrameEffect::Terminate {
                code: ResetCode::ResumeImpossible,
                ..
            }
        )),
        "must terminate honestly rather than silently drop bytes: {effects:?}"
    );
}

#[test]
fn reset_all_marks_every_stream_when_helper_restarts() {
    let mut s = MuxState::new(1024);
    let a = s.alloc_stream(addr());
    let b = s.alloc_stream(addr());
    let ids = s.reset_all(ResetCode::UnknownStream);
    assert_eq!(ids.len(), 2);
    assert!(s.get_mut(a).unwrap().is_finished());
    assert!(s.get_mut(b).unwrap().is_finished());
}

#[test]
fn build_resume_frames_reports_local_delivered_offsets() {
    let mut s = MuxState::new(4096);
    let id = s.alloc_stream(addr());
    apply_frame(
        &mut s,
        Frame::Data {
            stream_id: id,
            offset: 0,
            data: Bytes::from_static(b"0123456789"),
        },
    )
    .unwrap();

    let frames = s.build_resume_frames();
    assert_eq!(
        frames,
        vec![Frame::Resume {
            stream_id: id,
            recv_offset: 10
        }]
    );
}

#[test]
fn invalid_ack_terminates_the_stream() {
    let (mut s, id) = state_with_stream();
    let effects = apply_frame(
        &mut s,
        Frame::Ack {
            stream_id: id,
            offset: 500,
        },
    )
    .unwrap();
    assert_eq!(
        effects[0],
        FrameEffect::Terminate {
            stream_id: id,
            code: ResetCode::Internal
        }
    );
}

#[test]
fn backpressure_stops_accepting_data_when_window_is_full() {
    let mut s = MuxState::new(100);
    let id = s.alloc_stream(addr());
    let st = s.get_mut(id).unwrap();
    assert_eq!(st.tx.push(&[1u8; 250]), 100, "must clamp to window");
    assert_eq!(st.tx.writable(), 0);
    assert_eq!(st.tx.push(&[1u8; 10]), 0, "window full means backpressure");
}

#[test]
fn frames_are_encoded_in_order() {
    let frames = vec![Frame::Ping { nonce: 1 }, Frame::Fin { stream_id: 2 }];
    let mut wire = BytesMut::new();
    encode_all(&frames, &mut wire);
    assert_eq!(Frame::decode(&mut wire).unwrap(), Some(Frame::Ping { nonce: 1 }));
    assert_eq!(Frame::decode(&mut wire).unwrap(), Some(Frame::Fin { stream_id: 2 }));
    assert!(wire.is_empty());
}

#[test]
fn frames_leave_other_streams_alone() {
    let mut s = MuxState::new(4096);
    let a = s.alloc_stream(addr());
    let b = s.alloc_stream(addr());
    s.get_mut(b).unwrap().tx.push(b"bbb");
    for frame in [
        Frame::OpenOk { stream_id: a },
        Frame::Data { stream_id: a, offset: 0, data: Bytes::from_static(b"x") },
        Frame::Fin { stream_id: a },
        Frame::Reset { stream_id: a, code: ResetCode::Normal },
    ] {
        apply_frame(&mut s, frame).unwrap();
    }
    let st = s.get_mut(b).unwrap();
    assert_eq!(st.tx.write_offset(), 3);
    assert_eq!(st.rx.delivered(), 0);
    assert!(!st.opened && !st.remote_fin && !st.is_finished());
    assert!(s.get_mut(a).unwrap().is_finished());
    let mut ids = s.stream_ids();
    ids.sort_unstable();
    assert_eq!(ids, vec![a, b]);
    assert!(s.remove(a).is_some());
    assert!(s.remove(a).is_none());
    assert_eq!(s.len(), 1);
}
