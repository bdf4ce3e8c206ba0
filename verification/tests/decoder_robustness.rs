//! The frame decoder on pseudo-random input: it never panics, never trusts a
//! declared length, and gives back what was encoded.

use bytes::{BufMut, Bytes, BytesMut};
use srp::{Frame, ProtoError, ResetCode, TargetAddr, HEADER_LEN, MAX_FRAME_PAYLOAD};

/// A deterministic generator (xorshift64*).
struct Rng(u64);

impl Rng {
    fn new(seed: u64) -> Self {
        Self(if seed == 0 { 0x9E3779B97F4A7C15 } else { seed })
    }

    fn next_u64(&mut self) -> u64 {
        let mut x = self.0;
        x ^= x >> 12;
        x ^= x << 25;
        x ^= x >> 27;
        self.0 = x;
        x.wrapping_mul(0x2545F4914F6CDD1D)
    }

    fn below(&mut self, n: u64) -> u64 {
        if n == 0 {
            0
        } else {
            self.next_u64() % n
        }
    }

    fn octets(&mut self, len: usize) -> Vec<u8> {
        (0..len).map(|_| (self.next_u64() & 0xFF) as u8).collect()
    }
}

fn drain_quietly(buf: &mut BytesMut) {
    while let Ok(Some(_)) = Frame::decode(buf) {}
}

fn random_addr(rng: &mut Rng) -> TargetAddr {
    let port = (rng.below(65536)) as u16;
    match rng.below(3) {
        0 => {
            let b = rng.octets(4);
            TargetAddr::V4([b[0], b[1], b[2], b[3]], port)
        }
        1 => {
            let b = rng.octets(16);
            let mut o = [0u8; 16];
            o.copy_from_slice(&b);
            TargetAddr::V6(o, port)
        }
        _ => {
            let len = 1 + rng.below(255) as usize;
            let name: String = (0..len)
                .map(|_| {
                    let alphabet = b"abcdefghijklmnopqrstuvwxyz0123456789-.";
                    alphabet[rng.below(alphabet.len() as u64) as usize] as char
                })
                .collect();
            TargetAddr::Domain(name, port)
        }
    }
}

fn random_frame(rng: &mut Rng) -> Frame {
    let sid = rng.next_u64() as u32;
    let codes = [
        ResetCode::Normal,
        ResetCode::ConnectFailed,
        ResetCode::UnknownStream,
        ResetCode::ResumeImpossible,
        ResetCode::Internal,
        ResetCode::Forbidden,
    ];
    let code = codes[rng.below(codes.len() as u64) as usize];

    match rng.below(14) {
        0 => {
            let mut id = [0u8; 16];
            id.copy_from_slice(&rng.octets(16));
            Frame::Hello {
                version: (rng.below(256)) as u8,
                session_id: id,
                resume: rng.below(2) == 1,
            }
        }
        1 => {
            let mut id = [0u8; 16];
            id.copy_from_slice(&rng.octets(16));
            Frame::HelloAck {
                version: (rng.below(256)) as u8,
                session_id: id,
                resumed: rng.below(2) == 1,
            }
        }
        2 => Frame::Open {
            stream_id: sid,
            addr: random_addr(rng),
        },
        3 => Frame::OpenOk { stream_id: sid },
        4 => Frame::OpenErr {
            stream_id: sid,
            code,
            msg: format!("失败 {}", rng.below(1000)),
        },
        5 => {
            let len = rng.below(70_000) as usize;
            Frame::Data {
                stream_id: sid,
                offset: rng.next_u64(),
                data: Bytes::from(rng.octets(len)),
            }
        }
        6 => Frame::Ack {
            stream_id: sid,
            offset: rng.next_u64(),
        },
        7 => Frame::Fin { stream_id: sid },
        8 => Frame::Reset {
            stream_id: sid,
            code,
        },
        9 => Frame::Resume {
            stream_id: sid,
            recv_offset: rng.next_u64(),
        },
        10 => Frame::ResumeOk {
            stream_id: sid,
            recv_offset: rng.next_u64(),
        },
        11 => Frame::ResumeErr {
            stream_id: sid,
            code,
        },
        12 => Frame::Ping {
            nonce: rng.next_u64(),
        },
        _ => Frame::Pong {
            nonce: rng.next_u64(),
        },
    }
}

#[test]
fn random_frames_roundtrip_exactly() {
    let mut rng = Rng::new(0xC0FFEE);
    for i in 0..4000 {
        let frame = random_frame(&mut rng);
        let mut buf = BytesMut::new();
        frame.encode(&mut buf);

        let decoded = Frame::decode(&mut buf)
            .unwrap_or_else(|e| panic!("iteration {i}: decode failed for {frame:?}: {}", e.message()))
            .unwrap_or_else(|| panic!("iteration {i}: incomplete frame for {frame:?}"));

        assert_eq!(decoded, frame, "iteration {i}: roundtrip mismatch");
        assert!(buf.is_empty(), "iteration {i}: leftover bytes");
    }
}

#[test]
fn pipelined_random_frames_decode_in_order() {
    let mut rng = Rng::new(0xBADC0DE);
    for round in 0..200 {
        let n = 1 + rng.below(20) as usize;
        let frames: Vec<Frame> = (0..n).map(|_| random_frame(&mut rng)).collect();

        let mut wire = BytesMut::new();
        for f in &frames {
            f.encode(&mut wire);
        }

        let mut out = Vec::new();
        while let Some(f) = Frame::decode(&mut wire).expect("decode") {
            out.push(f);
        }
        assert_eq!(out, frames, "round {round}: pipeline mismatch");
        assert!(wire.is_empty(), "round {round}: leftover bytes");
    }
}

#[test]
fn arbitrary_fragmentation_preserves_frames() {
    let mut rng = Rng::new(0x5EED);
    for round in 0..60 {
        let n = 1 + rng.below(8) as usize;
        let frames: Vec<Frame> = (0..n).map(|_| random_frame(&mut rng)).collect();

        let mut wire = BytesMut::new();
        for f in &frames {
            f.encode(&mut wire);
        }
        let wire = wire.freeze();

        let mut buf = BytesMut::new();
        let mut out = Vec::new();
        let mut pos = 0usize;
        while pos < wire.len() {
            let chunk = 1 + rng.below(1000) as usize;
            let end = (pos + chunk).min(wire.len());
            buf.extend_from_slice(&wire[pos..end]);
            pos = end;
            while let Some(f) = Frame::decode(&mut buf).expect("decode") {
                out.push(f);
            }
        }
        assert_eq!(out, frames, "round {round}: fragmentation lost frames");
        assert!(buf.is_empty(), "round {round}: leftover bytes");
    }
}

#[test]
fn random_garbage_never_panics() {
    let mut rng = Rng::new(0xDEADBEEF);
    for _ in 0..6000 {
        let len = rng.below(600) as usize;
        let mut buf = BytesMut::from(&rng.octets(len)[..]);
        drain_quietly(&mut buf);
    }
}

#[test]
fn corrupted_payloads_are_rejected_cleanly() {
    let mut rng = Rng::new(0x1337);
    for _ in 0..3000 {
        let frame = random_frame(&mut rng);
        let mut buf = BytesMut::new();
        frame.encode(&mut buf);
        if buf.is_empty() {
            continue;
        }

        let flips = 1 + rng.below(5) as usize;
        for _ in 0..flips {
            let idx = rng.below(buf.len() as u64) as usize;
            buf[idx] ^= 1u8 << rng.below(8);
        }

        drain_quietly(&mut buf);
    }
}

#[test]
fn oversized_length_declarations_are_refused_without_allocating() {
    for declared in [
        MAX_FRAME_PAYLOAD as u32 + 1,
        1 << 20,
        1 << 24,
        u32::MAX / 2,
        u32::MAX,
    ] {
        let mut buf = BytesMut::new();
        buf.put_u8(0x20); // DATA
        buf.put_u32(1);
        buf.put_u32(declared);

        match Frame::decode(&mut buf) {
            Err(ProtoError::FrameTooLarge(n)) => {
                assert_eq!(n as u32, declared);
                assert_eq!(buf.len(), HEADER_LEN);
            }
            other => panic!("declared {declared} should be refused, got {other:?}"),
        }
    }
}

#[test]
fn payload_exactly_at_the_limit_is_accepted() {
    let data = vec![0x5Au8; MAX_FRAME_PAYLOAD - 8];
    let frame = Frame::Data {
        stream_id: 42,
        offset: 12345,
        data: Bytes::from(data.clone()),
    };
    let mut buf = BytesMut::new();
    frame.encode(&mut buf);
    assert_eq!(buf.len(), HEADER_LEN + MAX_FRAME_PAYLOAD);

    let decoded = Frame::decode(&mut buf)
        .expect("must accept")
        .expect("complete");
    assert_eq!(decoded, frame);
}

#[test]
fn incomplete_input_never_consumes_bytes() {
    let mut rng = Rng::new(0xFEED);
    for _ in 0..2000 {
        let frame = random_frame(&mut rng);
        let mut full = BytesMut::new();
        frame.encode(&mut full);
        if full.len() <= 1 {
            continue;
        }

        let cut = rng.below(full.len() as u64) as usize;
        let mut partial = BytesMut::from(&full[..cut]);
        let before = partial.len();

        if let Ok(None) = Frame::decode(&mut partial) {
            assert_eq!(
                partial.len(),
                before,
                "incomplete decode must leave the buffer untouched"
            );
        }
    }
}
