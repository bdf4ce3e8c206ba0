use bytes::{BufMut, Bytes, BytesMut};
use srp::frame::{TY_ACK, TY_DATA};
use srp::{
    Frame, ProtoError, ResetCode, TargetAddr, HEADER_LEN, MAX_FRAME_PAYLOAD, PROTO_VERSION,
};

fn all_frames() -> Vec<Frame> {
    vec![
        Frame::Hello {
            version: PROTO_VERSION,
            session_id: [7u8; 16],
            resume: true,
        },
        Frame::HelloAck {
            version: PROTO_VERSION,
            session_id: [7u8; 16],
            resumed: false,
        },
        Frame::Open {
            stream_id: 3,
            addr: TargetAddr::Domain("example.com".into(), 443),
        },
        Frame::OpenOk { stream_id: 3 },
        Frame::OpenErr {
            stream_id: 3,
            code: ResetCode::ConnectFailed,
            msg: "connection refused".into(),
        },
        Frame::Data {
            stream_id: 3,
            offset: 4096,
            data: Bytes::from_static(b"hello world"),
        },
        Frame::Ack {
            stream_id: 3,
            offset: 4107,
        },
        Frame::Fin { stream_id: 3 },
        Frame::Reset {
            stream_id: 3,
            code: ResetCode::Normal,
        },
        Frame::Resume {
            stream_id: 3,
            recv_offset: 99,
        },
        Frame::ResumeOk {
            stream_id: 3,
            recv_offset: 100,
        },
        Frame::ResumeErr {
            stream_id: 3,
            code: ResetCode::ResumeImpossible,
        },
        Frame::Ping { nonce: 1234 },
        Frame::Pong { nonce: 1234 },
    ]
}

#[test]
fn roundtrips_every_frame_type() {
    for f in all_frames() {
        let mut buf = BytesMut::new();
        f.encode(&mut buf);
        let decoded = Frame::decode(&mut buf)
            .expect("decode ok")
            .expect("complete");
        assert_eq!(decoded, f, "roundtrip mismatch");
        assert!(buf.is_empty(), "leftover bytes after {f:?}");
    }
}

#[test]
fn decodes_a_pipelined_stream_in_order() {
    let frames = all_frames();
    let mut buf = BytesMut::new();
    for f in &frames {
        f.encode(&mut buf);
    }
    let mut out = Vec::new();
    while let Some(f) = Frame::decode(&mut buf).expect("decode ok") {
        out.push(f);
    }
    assert_eq!(out, frames);
    assert!(buf.is_empty());
}

#[test]
fn tolerates_arbitrary_fragmentation() {
    let frames = all_frames();
    let mut wire = BytesMut::new();
    for f in &frames {
        f.encode(&mut wire);
    }
    let wire = wire.freeze();

    let mut buf = BytesMut::new();
    let mut out = Vec::new();
    for byte in wire.iter() {
        buf.put_u8(*byte);
        while let Some(f) = Frame::decode(&mut buf).expect("decode ok") {
            out.push(f);
        }
    }
    assert_eq!(out, frames);
}

#[test]
fn returns_none_on_partial_header() {
    let mut buf = BytesMut::from(&[TY_DATA, 0, 0][..]);
    assert_eq!(Frame::decode(&mut buf).unwrap(), None);
    assert_eq!(buf.len(), 3, "src must be untouched when incomplete");
}

#[test]
fn rejects_oversized_and_unknown_frames() {
    let mut buf = BytesMut::new();
    buf.put_u8(TY_DATA);
    buf.put_u32(1);
    buf.put_u32(MAX_FRAME_PAYLOAD as u32 + 1);
    assert!(matches!(
        Frame::decode(&mut buf),
        Err(ProtoError::FrameTooLarge(_))
    ));

    let mut buf = BytesMut::new();
    buf.put_u8(0xEE);
    buf.put_u32(0);
    buf.put_u32(0);
    assert!(matches!(
        Frame::decode(&mut buf),
        Err(ProtoError::BadFrameType(0xEE))
    ));
}

#[test]
fn rejects_truncated_payload_body() {
    let mut buf = BytesMut::new();
    buf.put_u8(TY_ACK);
    buf.put_u32(1);
    buf.put_u32(2);
    buf.put_slice(&[0, 0]);
    assert!(matches!(
        Frame::decode(&mut buf),
        Err(ProtoError::Truncated)
    ));
}

#[test]
fn empty_data_frame_is_valid() {
    let f = Frame::Data {
        stream_id: 1,
        offset: 0,
        data: Bytes::new(),
    };
    let mut buf = BytesMut::new();
    f.encode(&mut buf);
    assert_eq!(buf.len(), HEADER_LEN + 8);
    assert_eq!(Frame::decode(&mut buf).unwrap().unwrap(), f);
}

#[test]
fn stream_id_association_is_reported() {
    assert_eq!(Frame::Ping { nonce: 0 }.stream_id(), None);
    assert_eq!(Frame::Fin { stream_id: 42 }.stream_id(), Some(42));
}
