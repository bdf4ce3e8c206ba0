//! The frames of the multiplexing protocol.
//!
//! A frame is a type byte, the stream's number, the length of the payload and
//! the payload. Integers are in network byte order. Frames that belong to no
//! stream carry the number 0.

use bytes::{Bytes, BytesMut};
use vstd::prelude::*;
use vstd::slice::slice_subrange;
use vstd::utf8::{decode_utf8, encode_utf8, valid_utf8};

use crate::addr::{first_16, parse_addr, AddrView};
use crate::bigendian::{be, from_be};
use crate::buf::{
    advance, buffered, content, get_u16, get_u64, get_u8, put_u16, put_u32, put_u64, put_u8,
    view_buffered, view_content,
};
use crate::text::{string_from_utf8_lossy, utf8_lossy};
use crate::{ProtoError, TargetAddr};

verus! {

/// The version of the protocol. Both ends have to agree on it.
pub const PROTO_VERSION: u8 = 1;

/// The length of a frame header: type, stream number, payload length.
pub const HEADER_LEN: usize = 9;

/// The largest payload of a frame.
pub const MAX_FRAME_PAYLOAD: usize = 256 * 1024;

/// How many bytes of stream data one `Data` frame carries at most.
pub const DATA_CHUNK: usize = 32 * 1024;

/// How many sent and unacknowledged bytes a stream holds by default.
pub const DEFAULT_STREAM_WINDOW: u64 = 4 * 1024 * 1024;

/// Names a session across reconnects.
pub type SessionId = [u8; 16];

/// Names a stream within a session.
pub type StreamId = u32;

/// Why a stream was ended or refused.
#[derive(Debug, Clone, Copy, PartialEq, Eq, Structural)]
pub enum ResetCode {
    /// Closed in the ordinary way.
    Normal,
    /// The connection to the target failed.
    ConnectFailed,
    /// The peer does not know the stream.
    UnknownStream,
    /// Bytes that the peer lacks were already released.
    ResumeImpossible,
    /// An error inside the helper.
    Internal,
    /// The target is not on the allow list.
    Forbidden,
}

impl ResetCode {
    /// The number of a code on the wire.
    pub open spec fn number(self) -> u8 {
        match self {
            ResetCode::Normal => 0,
            ResetCode::ConnectFailed => 1,
            ResetCode::UnknownStream => 2,
            ResetCode::ResumeImpossible => 3,
            ResetCode::Internal => 4,
            ResetCode::Forbidden => 5,
        }
    }

    /// The code that a number on the wire means; unknown numbers mean an
    /// internal error.
    pub open spec fn numbered(v: u8) -> ResetCode {
        if v == 0 {
            ResetCode::Normal
        } else if v == 1 {
            ResetCode::ConnectFailed
        } else if v == 2 {
            ResetCode::UnknownStream
        } else if v == 3 {
            ResetCode::ResumeImpossible
        } else if v == 5 {
            ResetCode::Forbidden
        } else {
            ResetCode::Internal
        }
    }

    pub fn from_u8(v: u8) -> (r: ResetCode)
        ensures
            r == ResetCode::numbered(v),
    {
        match v {
            0 => ResetCode::Normal,
            1 => ResetCode::ConnectFailed,
            2 => ResetCode::UnknownStream,
            3 => ResetCode::ResumeImpossible,
            5 => ResetCode::Forbidden,
            _ => ResetCode::Internal,
        }
    }

    pub fn to_u8(self) -> (r: u8)
        ensures
            r == self.number(),
    {
        match self {
            ResetCode::Normal => 0,
            ResetCode::ConnectFailed => 1,
            ResetCode::UnknownStream => 2,
            ResetCode::ResumeImpossible => 3,
            ResetCode::Internal => 4,
            ResetCode::Forbidden => 5,
        }
    }
}

/// A reset code is read back from its number.
pub proof fn law_reset_code_round_trip(c: ResetCode)
    ensures
        ResetCode::numbered(c.number()) == c,
{
}

pub const TY_HELLO: u8 = 0x01;

pub const TY_HELLO_ACK: u8 = 0x02;

pub const TY_OPEN: u8 = 0x10;

pub const TY_OPEN_OK: u8 = 0x11;

pub const TY_OPEN_ERR: u8 = 0x12;

pub const TY_DATA: u8 = 0x20;

pub const TY_ACK: u8 = 0x21;

pub const TY_FIN: u8 = 0x22;

pub const TY_RESET: u8 = 0x23;

pub const TY_RESUME: u8 = 0x30;

pub const TY_RESUME_OK: u8 = 0x31;

pub const TY_RESUME_ERR: u8 = 0x32;

pub const TY_PING: u8 = 0x40;

pub const TY_PONG: u8 = 0x41;

/// A protocol frame.
#[derive(Debug, PartialEq, Eq)]
pub enum Frame {
    /// Client to helper: the handshake. `resume` asks for an old session.
    Hello { version: u8, session_id: SessionId, resume: bool },
    /// Helper to client: the answer. Unless `resumed`, the client's old
    /// streams are gone.
    HelloAck { version: u8, session_id: SessionId, resumed: bool },
    /// Asks the helper to connect to `addr`.
    Open { stream_id: StreamId, addr: TargetAddr },
    /// The connection stands.
    OpenOk { stream_id: StreamId },
    /// The connection failed.
    OpenErr { stream_id: StreamId, code: ResetCode, msg: String },
    /// Stream data; `offset` is where its first byte stands in the stream.
    Data { stream_id: StreamId, offset: u64, data: Bytes },
    /// The first `offset` bytes were received and delivered.
    Ack { stream_id: StreamId, offset: u64 },
    /// The sender has ended its direction of the stream.
    Fin { stream_id: StreamId },
    /// The stream is over, in both directions.
    Reset { stream_id: StreamId, code: ResetCode },
    /// After a reconnect: `recv_offset` bytes arrived here, go on from there.
    Resume { stream_id: StreamId, recv_offset: u64 },
    /// The stream is alive and `recv_offset` bytes arrived here.
    ResumeOk { stream_id: StreamId, recv_offset: u64 },
    /// The stream cannot go on.
    ResumeErr { stream_id: StreamId, code: ResetCode },
    /// Asks for a sign of life.
    Ping { nonce: u64 },
    /// The sign of life.
    Pong { nonce: u64 },
}

/// What a frame stands for.
#[verifier::ext_equal]
pub enum FrameView {
    Hello { version: u8, session_id: Seq<u8>, resume: bool },
    HelloAck { version: u8, session_id: Seq<u8>, resumed: bool },
    Open { stream_id: u32, addr: AddrView },
    OpenOk { stream_id: u32 },
    OpenErr { stream_id: u32, code: ResetCode, msg: Seq<char> },
    Data { stream_id: u32, offset: u64, data: Seq<u8> },
    Ack { stream_id: u32, offset: u64 },
    Fin { stream_id: u32 },
    Reset { stream_id: u32, code: ResetCode },
    Resume { stream_id: u32, recv_offset: u64 },
    ResumeOk { stream_id: u32, recv_offset: u64 },
    ResumeErr { stream_id: u32, code: ResetCode },
    Ping { nonce: u64 },
    Pong { nonce: u64 },
}

impl View for Frame {
    type V = FrameView;

    open spec fn view(&self) -> FrameView {
        match self {
            Frame::Hello { version, session_id, resume } => FrameView::Hello {
                version: *version,
                session_id: session_id@,
                resume: *resume,
            },
            Frame::HelloAck { version, session_id, resumed } => FrameView::HelloAck {
                version: *version,
                session_id: session_id@,
                resumed: *resumed,
            },
            Frame::Open { stream_id, addr } => FrameView::Open {
                stream_id: *stream_id,
                addr: addr@,
            },
            Frame::OpenOk { stream_id } => FrameView::OpenOk { stream_id: *stream_id },
            Frame::OpenErr { stream_id, code, msg } => FrameView::OpenErr {
                stream_id: *stream_id,
                code: *code,
                msg: msg@,
            },
            Frame::Data { stream_id, offset, data } => FrameView::Data {
                stream_id: *stream_id,
                offset: *offset,
                data: content(*data),
            },
            Frame::Ack { stream_id, offset } => FrameView::Ack {
                stream_id: *stream_id,
                offset: *offset,
            },
            Frame::Fin { stream_id } => FrameView::Fin { stream_id: *stream_id },
            Frame::Reset { stream_id, code } => FrameView::Reset {
                stream_id: *stream_id,
                code: *code,
            },
            Frame::Resume { stream_id, recv_offset } => FrameView::Resume {
                stream_id: *stream_id,
                recv_offset: *recv_offset,
            },
            Frame::ResumeOk { stream_id, recv_offset } => FrameView::ResumeOk {
                stream_id: *stream_id,
                recv_offset: *recv_offset,
            },
            Frame::ResumeErr { stream_id, code } => FrameView::ResumeErr {
                stream_id: *stream_id,
                code: *code,
            },
            Frame::Ping { nonce } => FrameView::Ping { nonce: *nonce },
            Frame::Pong { nonce } => FrameView::Pong { nonce: *nonce },
        }
    }
}

pub open spec fn flag(b: bool) -> Seq<u8> {
    seq![
        if b {
            1u8
        } else {
            0u8
        },
    ]
}

/// The part of a message that a frame carries: its first 65535 bytes.
pub open spec fn carried(msg: Seq<char>) -> Seq<u8> {
    let all = encode_utf8(msg);
    if all.len() <= u16::MAX {
        all
    } else {
        all.take(u16::MAX as int)
    }
}

impl FrameView {
    /// The stream that the frame belongs to.
    pub open spec fn stream_id(self) -> Option<u32> {
        match self {
            FrameView::Hello { .. } => None,
            FrameView::HelloAck { .. } => None,
            FrameView::Open { stream_id, .. } => Some(stream_id),
            FrameView::OpenOk { stream_id } => Some(stream_id),
            FrameView::OpenErr { stream_id, .. } => Some(stream_id),
            FrameView::Data { stream_id, .. } => Some(stream_id),
            FrameView::Ack { stream_id, .. } => Some(stream_id),
            FrameView::Fin { stream_id } => Some(stream_id),
            FrameView::Reset { stream_id, .. } => Some(stream_id),
            FrameView::Resume { stream_id, .. } => Some(stream_id),
            FrameView::ResumeOk { stream_id, .. } => Some(stream_id),
            FrameView::ResumeErr { stream_id, .. } => Some(stream_id),
            FrameView::Ping { .. } => None,
            FrameView::Pong { .. } => None,
        }
    }

    /// The type byte.
    pub open spec fn kind(self) -> u8 {
        match self {
            FrameView::Hello { .. } => TY_HELLO,
            FrameView::HelloAck { .. } => TY_HELLO_ACK,
            FrameView::Open { .. } => TY_OPEN,
            FrameView::OpenOk { .. } => TY_OPEN_OK,
            FrameView::OpenErr { .. } => TY_OPEN_ERR,
            FrameView::Data { .. } => TY_DATA,
            FrameView::Ack { .. } => TY_ACK,
            FrameView::Fin { .. } => TY_FIN,
            FrameView::Reset { .. } => TY_RESET,
            FrameView::Resume { .. } => TY_RESUME,
            FrameView::ResumeOk { .. } => TY_RESUME_OK,
            FrameView::ResumeErr { .. } => TY_RESUME_ERR,
            FrameView::Ping { .. } => TY_PING,
            FrameView::Pong { .. } => TY_PONG,
        }
    }

    /// The payload.
    pub open spec fn payload(self) -> Seq<u8> {
        match self {
            FrameView::Hello { version, session_id, resume } => seq![version] + session_id + flag(
                resume,
            ),
            FrameView::HelloAck { version, session_id, resumed } => seq![version] + session_id
                + flag(resumed),
            FrameView::Open { addr, .. } => addr.wire(),
            FrameView::OpenOk { .. } => seq![],
            FrameView::OpenErr { code, msg, .. } => seq![code.number()] + be(
                carried(msg).len(),
                2,
            ) + carried(msg),
            FrameView::Data { offset, data, .. } => be(offset as nat, 8) + data,
            FrameView::Ack { offset, .. } => be(offset as nat, 8),
            FrameView::Fin { .. } => seq![],
            FrameView::Reset { code, .. } => seq![code.number()],
            FrameView::Resume { recv_offset, .. } => be(recv_offset as nat, 8),
            FrameView::ResumeOk { recv_offset, .. } => be(recv_offset as nat, 8),
            FrameView::ResumeErr { code, .. } => seq![code.number()],
            FrameView::Ping { nonce } => be(nonce as nat, 8),
            FrameView::Pong { nonce } => be(nonce as nat, 8),
        }
    }

    /// The frame on the wire.
    pub open spec fn wire(self) -> Seq<u8> {
        seq![self.kind()] + be(
            match self.stream_id() {
                Some(id) => id as nat,
                None => 0,
            },
            4,
        ) + be(self.payload().len() % 0x1_0000_0000, 4) + self.payload()
    }

    /// Whether the frame can be read back from its bytes: its payload has the
    /// permitted size and nothing in it is cut short.
    pub open spec fn encodable(self) -> bool {
        &&& self.payload().len() <= MAX_FRAME_PAYLOAD
        &&& match self {
            FrameView::Hello { session_id, .. } => session_id.len() == 16,
            FrameView::HelloAck { session_id, .. } => session_id.len() == 16,
            FrameView::Open { addr, .. } => addr.encodable(),
            FrameView::OpenErr { msg, .. } => encode_utf8(msg).len() <= u16::MAX,
            _ => true,
        }
    }
}

/// What the payload of a frame of type `ty` says.
pub open spec fn parse_payload(ty: u8, stream_id: u32, s: Seq<u8>) -> Result<
    FrameView,
    ProtoError,
> {
    if ty == TY_HELLO || ty == TY_HELLO_ACK {
        if s.len() < 18 {
            Err(ProtoError::Truncated)
        } else if ty == TY_HELLO {
            Ok(
                FrameView::Hello {
                    version: s[0],
                    session_id: s.subrange(1, 17),
                    resume: s[17] != 0,
                },
            )
        } else {
            Ok(
                FrameView::HelloAck {
                    version: s[0],
                    session_id: s.subrange(1, 17),
                    resumed: s[17] != 0,
                },
            )
        }
    } else if ty == TY_OPEN {
        match parse_addr(s) {
            Ok(addr) => Ok(FrameView::Open { stream_id, addr }),
            Err(e) => Err(e),
        }
    } else if ty == TY_OPEN_OK {
        Ok(FrameView::OpenOk { stream_id })
    } else if ty == TY_OPEN_ERR {
        if s.len() < 3 || s.len() < 3 + from_be(s.subrange(1, 3)) {
            Err(ProtoError::Truncated)
        } else {
            let text = s.subrange(3, 3 + from_be(s.subrange(1, 3)) as int);
            Ok(
                FrameView::OpenErr {
                    stream_id,
                    code: ResetCode::numbered(s[0]),
                    msg: if valid_utf8(text) {
                        decode_utf8(text)
                    } else {
                        utf8_lossy(text)
                    },
                },
            )
        }
    } else if ty == TY_DATA {
        if s.len() < 8 {
            Err(ProtoError::Truncated)
        } else {
            Ok(FrameView::Data { stream_id, offset: from_be(s.take(8)) as u64, data: s.skip(8) })
        }
    } else if ty == TY_ACK {
        if s.len() < 8 {
            Err(ProtoError::Truncated)
        } else {
            Ok(FrameView::Ack { stream_id, offset: from_be(s.take(8)) as u64 })
        }
    } else if ty == TY_FIN {
        Ok(FrameView::Fin { stream_id })
    } else if ty == TY_RESET {
        if s.len() < 1 {
            Err(ProtoError::Truncated)
        } else {
            Ok(FrameView::Reset { stream_id, code: ResetCode::numbered(s[0]) })
        }
    } else if ty == TY_RESUME {
        if s.len() < 8 {
            Err(ProtoError::Truncated)
        } else {
            Ok(FrameView::Resume { stream_id, recv_offset: from_be(s.take(8)) as u64 })
        }
    } else if ty == TY_RESUME_OK {
        if s.len() < 8 {
            Err(ProtoError::Truncated)
        } else {
            Ok(FrameView::ResumeOk { stream_id, recv_offset: from_be(s.take(8)) as u64 })
        }
    } else if ty == TY_RESUME_ERR {
        if s.len() < 1 {
            Err(ProtoError::Truncated)
        } else {
            Ok(FrameView::ResumeErr { stream_id, code: ResetCode::numbered(s[0]) })
        }
    } else if ty == TY_PING || ty == TY_PONG {
        if s.len() < 8 {
            Err(ProtoError::Truncated)
        } else if ty == TY_PING {
            Ok(FrameView::Ping { nonce: from_be(s.take(8)) as u64 })
        } else {
            Ok(FrameView::Pong { nonce: from_be(s.take(8)) as u64 })
        }
    } else {
        Err(ProtoError::BadFrameType(ty))
    }
}

/// The payload length that the header at the front of `s` declares.
pub open spec fn declared_len(s: Seq<u8>) -> nat {
    from_be(s.subrange(5, 9))
}

/// Whether `s` is too short for the frame at its front.
pub open spec fn incomplete(s: Seq<u8>) -> bool {
    s.len() < HEADER_LEN || (declared_len(s) <= MAX_FRAME_PAYLOAD && s.len() < HEADER_LEN
        + declared_len(s))
}

/// What decoding the front of `s` gives: a frame, nothing while bytes are
/// missing, or an error.
pub open spec fn decode_result(s: Seq<u8>) -> Result<Option<FrameView>, ProtoError> {
    if incomplete(s) {
        Ok(None)
    } else if declared_len(s) > MAX_FRAME_PAYLOAD {
        Err(ProtoError::FrameTooLarge(declared_len(s) as usize))
    } else {
        match parse_payload(
            s[0],
            from_be(s.subrange(1, 5)) as u32,
            s.subrange(HEADER_LEN as int, HEADER_LEN + declared_len(s)),
        ) {
            Ok(f) => Ok(Some(f)),
            Err(e) => Err(e),
        }
    }
}

/// How many bytes decoding takes from the front of `s`: the frame, or nothing
/// where bytes are missing or the declared length is refused.
pub open spec fn decode_consumed(s: Seq<u8>) -> nat {
    if incomplete(s) || declared_len(s) > MAX_FRAME_PAYLOAD {
        0
    } else {
        HEADER_LEN as nat + declared_len(s)
    }
}

/// The big-endian number in the four bytes of `s` from `at` on.
fn read_u32(s: &[u8], at: usize) -> (r: u32)
    requires
        at + 4 <= s@.len(),
    ensures
        r as nat == from_be(s@.subrange(at as int, at + 4)),
{
    let r: u32 = ((s[at] as u32 * 256 + s[at + 1] as u32) * 256 + s[at + 2] as u32) * 256 + s[at
        + 3] as u32;
    proof {
        reveal_with_fuel(from_be, 5);
        let w = s@.subrange(at as int, at + 4);
        assert(w.drop_last() =~= s@.subrange(at as int, at + 3));
        assert(w.drop_last().drop_last() =~= s@.subrange(at as int, at + 2));
        assert(w.drop_last().drop_last().drop_last() =~= s@.subrange(at as int, at + 1));
    }
    r
}

fn flag_byte(b: bool) -> (r: u8)
    ensures
        seq![r] == flag(b),
{
    if b {
        1
    } else {
        0
    }
}

fn put_header(dst: &mut BytesMut, ty: u8, stream_id: u32, len: usize)
    requires
        buffered(*old(dst)).len() + 9 <= isize::MAX,
    ensures
        buffered(*final(dst)) == buffered(*old(dst)) + (seq![ty] + be(stream_id as nat, 4) + be(
            len as nat % 0x1_0000_0000,
            4,
        )),
{
    broadcast use crate::bigendian::lemma_be_len;

    let ghost before = buffered(*dst);
    put_u8(dst, ty);
    put_u32(dst, stream_id);
    put_u32(dst, (len as u64 % 0x1_0000_0000) as u32);
    assert(buffered(*dst) =~= before + (seq![ty] + be(stream_id as nat, 4) + be(
        len as nat % 0x1_0000_0000,
        4,
    )));
}

impl Clone for Frame {
    fn clone(&self) -> (r: Frame)
        ensures
            r@ == self@,
    {
        match self {
            Frame::Hello { version, session_id, resume } => Frame::Hello {
                version: *version,
                session_id: *session_id,
                resume: *resume,
            },
            Frame::HelloAck { version, session_id, resumed } => Frame::HelloAck {
                version: *version,
                session_id: *session_id,
                resumed: *resumed,
            },
            Frame::Open { stream_id, addr } => Frame::Open {
                stream_id: *stream_id,
                addr: addr.clone(),
            },
            Frame::OpenOk { stream_id } => Frame::OpenOk { stream_id: *stream_id },
            Frame::OpenErr { stream_id, code, msg } => Frame::OpenErr {
                stream_id: *stream_id,
                code: *code,
                msg: msg.clone(),
            },
            Frame::Data { stream_id, offset, data } => Frame::Data {
                stream_id: *stream_id,
                offset: *offset,
                data: data.clone(),
            },
            Frame::Ack { stream_id, offset } => Frame::Ack {
                stream_id: *stream_id,
                offset: *offset,
            },
            Frame::Fin { stream_id } => Frame::Fin { stream_id: *stream_id },
            Frame::Reset { stream_id, code } => Frame::Reset {
                stream_id: *stream_id,
                code: *code,
            },
            Frame::Resume { stream_id, recv_offset } => Frame::Resume {
                stream_id: *stream_id,
                recv_offset: *recv_offset,
            },
            Frame::ResumeOk { stream_id, recv_offset } => Frame::ResumeOk {
                stream_id: *stream_id,
                recv_offset: *recv_offset,
            },
            Frame::ResumeErr { stream_id, code } => Frame::ResumeErr {
                stream_id: *stream_id,
                code: *code,
            },
            Frame::Ping { nonce } => Frame::Ping { nonce: *nonce },
            Frame::Pong { nonce } => Frame::Pong { nonce: *nonce },
        }
    }
}

impl Frame {
    /// The stream that the frame belongs to, if it belongs to one.
    pub fn stream_id(&self) -> (r: Option<StreamId>)
        ensures
            r == self@.stream_id(),
    {
        match self {
            Frame::Hello { .. } => None,
            Frame::HelloAck { .. } => None,
            Frame::Open { stream_id, .. } => Some(*stream_id),
            Frame::OpenOk { stream_id } => Some(*stream_id),
            Frame::OpenErr { stream_id, .. } => Some(*stream_id),
            Frame::Data { stream_id, .. } => Some(*stream_id),
            Frame::Ack { stream_id, .. } => Some(*stream_id),
            Frame::Fin { stream_id } => Some(*stream_id),
            Frame::Reset { stream_id, .. } => Some(*stream_id),
            Frame::Resume { stream_id, .. } => Some(*stream_id),
            Frame::ResumeOk { stream_id, .. } => Some(*stream_id),
            Frame::ResumeErr { stream_id, .. } => Some(*stream_id),
            Frame::Ping { .. } => None,
            Frame::Pong { .. } => None,
        }
    }

    /// Appends the frame.
    pub fn encode(&self, dst: &mut BytesMut)
        requires
            buffered(*old(dst)).len() + self@.wire().len() <= isize::MAX,
        ensures
            buffered(*final(dst)) == buffered(*old(dst)) + self@.wire(),
    {
        broadcast use crate::bigendian::lemma_be_len;

        let ghost before = buffered(*dst);
        match self {
            Frame::Hello { version, session_id, resume } => {
                put_header(dst, TY_HELLO, 0, 18);
                put_u8(dst, *version);
                dst.extend_from_slice(session_id.as_slice());
                put_u8(dst, flag_byte(*resume));
            },
            Frame::HelloAck { version, session_id, resumed } => {
                put_header(dst, TY_HELLO_ACK, 0, 18);
                put_u8(dst, *version);
                dst.extend_from_slice(session_id.as_slice());
                put_u8(dst, flag_byte(*resumed));
            },
            Frame::Open { stream_id, addr } => {
                put_header(dst, TY_OPEN, *stream_id, addr.encoded_len());
                addr.encode(dst);
            },
            Frame::OpenOk { stream_id } => {
                put_header(dst, TY_OPEN_OK, *stream_id, 0);
            },
            Frame::OpenErr { stream_id, code, msg } => {
                let all = msg.as_str().as_bytes();
                let n: usize = if all.len() < u16::MAX as usize {
                    all.len()
                } else {
                    u16::MAX as usize
                };
                let text = slice_subrange(all, 0, n);
                assert(text@ =~= carried(msg@));
                put_header(dst, TY_OPEN_ERR, *stream_id, 3 + n);
                put_u8(dst, code.to_u8());
                put_u16(dst, n as u16);
                dst.extend_from_slice(text);
            },
            Frame::Data { stream_id, offset, data } => {
                put_header(dst, TY_DATA, *stream_id, 8 + data.len());
                put_u64(dst, *offset);
                dst.extend_from_slice(view_content(data));
            },
            Frame::Ack { stream_id, offset } => {
                put_header(dst, TY_ACK, *stream_id, 8);
                put_u64(dst, *offset);
            },
            Frame::Fin { stream_id } => {
                put_header(dst, TY_FIN, *stream_id, 0);
            },
            Frame::Reset { stream_id, code } => {
                put_header(dst, TY_RESET, *stream_id, 1);
                put_u8(dst, code.to_u8());
            },
            Frame::Resume { stream_id, recv_offset } => {
                put_header(dst, TY_RESUME, *stream_id, 8);
                put_u64(dst, *recv_offset);
            },
            Frame::ResumeOk { stream_id, recv_offset } => {
                put_header(dst, TY_RESUME_OK, *stream_id, 8);
                put_u64(dst, *recv_offset);
            },
            Frame::ResumeErr { stream_id, code } => {
                put_header(dst, TY_RESUME_ERR, *stream_id, 1);
                put_u8(dst, code.to_u8());
            },
            Frame::Ping { nonce } => {
                put_header(dst, TY_PING, 0, 8);
                put_u64(dst, *nonce);
            },
            Frame::Pong { nonce } => {
                put_header(dst, TY_PONG, 0, 8);
                put_u64(dst, *nonce);
            },
        }
        assert(buffered(*dst) =~= before + self@.wire());
    }

    /// Reads the payload of a frame of type `ty`.
    fn decode_payload(ty: u8, stream_id: u32, body: BytesMut) -> (r: Result<Frame, ProtoError>)
        ensures
            match parse_payload(ty, stream_id, buffered(body)) {
                Ok(f) => r matches Ok(g) && g@ == f,
                Err(e) => r matches Err(d) && d == e,
            },
    {
        let mut body = body;
        let ghost s = buffered(body);
        if ty == TY_HELLO || ty == TY_HELLO_ACK {
            if body.len() < 18 {
                return Err(ProtoError::Truncated);
            }
            let version: u8 = get_u8(&mut body);
            let session_id = first_16(view_buffered(&body));
            advance(&mut body, 16);
            let set: bool = get_u8(&mut body) != 0;
            assert(session_id@ =~= s.subrange(1, 17));
            if ty == TY_HELLO {
                Ok(Frame::Hello { version, session_id, resume: set })
            } else {
                Ok(Frame::HelloAck { version, session_id, resumed: set })
            }
        } else if ty == TY_OPEN {
            match TargetAddr::decode(&mut body) {
                Ok(addr) => Ok(Frame::Open { stream_id, addr }),
                Err(e) => Err(e),
            }
        } else if ty == TY_OPEN_OK {
            Ok(Frame::OpenOk { stream_id })
        } else if ty == TY_OPEN_ERR {
            if body.len() < 3 {
                return Err(ProtoError::Truncated);
            }
            let code = ResetCode::from_u8(get_u8(&mut body));
            assert(buffered(body).take(2) =~= s.subrange(1, 3));
            let n: usize = get_u16(&mut body) as usize;
            assert(buffered(body) =~= s.skip(3));
            if body.len() < n {
                return Err(ProtoError::Truncated);
            }
            let text = slice_subrange(view_buffered(&body), 0, n);
            assert(text@ =~= s.subrange(3, 3 + n));
            Ok(Frame::OpenErr { stream_id, code, msg: string_from_utf8_lossy(text) })
        } else if ty == TY_DATA {
            if body.len() < 8 {
                return Err(ProtoError::Truncated);
            }
            let offset: u64 = get_u64(&mut body);
            Ok(Frame::Data { stream_id, offset, data: body.freeze() })
        } else if ty == TY_ACK {
            if body.len() < 8 {
                return Err(ProtoError::Truncated);
            }
            Ok(Frame::Ack { stream_id, offset: get_u64(&mut body) })
        } else if ty == TY_FIN {
            Ok(Frame::Fin { stream_id })
        } else if ty == TY_RESET {
            if body.len() < 1 {
                return Err(ProtoError::Truncated);
            }
            Ok(Frame::Reset { stream_id, code: ResetCode::from_u8(get_u8(&mut body)) })
        } else if ty == TY_RESUME {
            if body.len() < 8 {
                return Err(ProtoError::Truncated);
            }
            Ok(Frame::Resume { stream_id, recv_offset: get_u64(&mut body) })
        } else if ty == TY_RESUME_OK {
            if body.len() < 8 {
                return Err(ProtoError::Truncated);
            }
            Ok(Frame::ResumeOk { stream_id, recv_offset: get_u64(&mut body) })
        } else if ty == TY_RESUME_ERR {
            if body.len() < 1 {
                return Err(ProtoError::Truncated);
            }
            Ok(Frame::ResumeErr { stream_id, code: ResetCode::from_u8(get_u8(&mut body)) })
        } else if ty == TY_PING || ty == TY_PONG {
            if body.len() < 8 {
                return Err(ProtoError::Truncated);
            }
            let nonce: u64 = get_u64(&mut body);
            if ty == TY_PING {
                Ok(Frame::Ping { nonce })
            } else {
                Ok(Frame::Pong { nonce })
            }
        } else {
            Err(ProtoError::BadFrameType(ty))
        }
    }

    /// Takes one frame from the front of `src`.
    ///
    /// Gives `None`, and leaves `src` as it is, while bytes are missing. After
    /// an error the channel is of no more use.
    pub fn decode(src: &mut BytesMut) -> (r: Result<Option<Frame>, ProtoError>)
        ensures
            match decode_result(buffered(*old(src))) {
                Ok(Some(f)) => r matches Ok(Some(g)) && g@ == f,
                Ok(None) => r matches Ok(None),
                Err(e) => r matches Err(d) && d == e,
            },
            buffered(*final(src)) == buffered(*old(src)).skip(
                decode_consumed(buffered(*old(src))) as int,
            ),
    {
        let ghost s = buffered(*src);
        assert(s.skip(0) =~= s);
        if src.len() < HEADER_LEN {
            return Ok(None);
        }
        let head = view_buffered(src);
        let ty: u8 = head[0];
        let stream_id: u32 = read_u32(head, 1);
        let len: usize = read_u32(head, 5) as usize;
        if len > MAX_FRAME_PAYLOAD {
            return Err(ProtoError::FrameTooLarge(len));
        }
        if src.len() < HEADER_LEN + len {
            return Ok(None);
        }
        advance(src, HEADER_LEN);
        let body = src.split_to(len);
        proof {
            assert(buffered(body) =~= s.subrange(HEADER_LEN as int, HEADER_LEN + len));
            assert(buffered(*src) =~= s.skip(HEADER_LEN + len));
        }
        match Frame::decode_payload(ty, stream_id, body) {
            Ok(f) => Ok(Some(f)),
            Err(e) => Err(e),
        }
    }
}

/// The payload of a frame says what the frame says.
proof fn lemma_payload_round_trip(f: FrameView)
    requires
        f.encodable(),
    ensures
        parse_payload(
            f.kind(),
            match f.stream_id() {
                Some(id) => id,
                None => 0,
            },
            f.payload(),
        ) == Ok::<FrameView, ProtoError>(f),
{
    broadcast use {crate::bigendian::lemma_be_inverse, crate::bigendian::lemma_be_len};
    broadcast use {vstd::utf8::encode_utf8_decode_utf8, vstd::utf8::encode_utf8_valid_utf8};

    crate::bigendian::lemma_base_values();
    let s = f.payload();
    match f {
        FrameView::Hello { version, session_id, resume } => {
            assert(s.subrange(1, 17) =~= session_id);
        },
        FrameView::HelloAck { version, session_id, resumed } => {
            assert(s.subrange(1, 17) =~= session_id);
        },
        FrameView::Open { stream_id, addr } => {
            crate::addr::law_addr_round_trip(addr, seq![]);
            assert(addr.wire() + Seq::<u8>::empty() =~= addr.wire());
        },
        FrameView::OpenErr { stream_id, code, msg } => {
            law_reset_code_round_trip(code);
            let n = encode_utf8(msg).len();
            assert(s.subrange(1, 3) =~= be(n, 2));
            assert(s.subrange(3, 3 + n as int) =~= encode_utf8(msg));
        },
        FrameView::Data { stream_id, offset, data } => {
            assert(s.take(8) =~= be(offset as nat, 8));
            assert(s.skip(8) =~= data);
        },
        FrameView::Ack { stream_id, offset } => {
            assert(s.take(8) =~= be(offset as nat, 8));
        },
        FrameView::Reset { stream_id, code } => {
            law_reset_code_round_trip(code);
        },
        FrameView::Resume { stream_id, recv_offset } => {
            assert(s.take(8) =~= be(recv_offset as nat, 8));
        },
        FrameView::ResumeOk { stream_id, recv_offset } => {
            assert(s.take(8) =~= be(recv_offset as nat, 8));
        },
        FrameView::ResumeErr { stream_id, code } => {
            law_reset_code_round_trip(code);
        },
        FrameView::Ping { nonce } => {
            assert(s.take(8) =~= be(nonce as nat, 8));
        },
        FrameView::Pong { nonce } => {
            assert(s.take(8) =~= be(nonce as nat, 8));
        },
        _ => {},
    }
}

/// The header in front of a frame's bytes, however much of the payload and of
/// what follows it is there.
proof fn lemma_header(f: FrameView, s: Seq<u8>)
    requires
        f.encodable(),
        s.len() >= HEADER_LEN,
        s.take(HEADER_LEN as int) == f.wire().take(HEADER_LEN as int),
    ensures
        s[0] == f.kind(),
        from_be(s.subrange(1, 5)) == (match f.stream_id() {
            Some(id) => id as nat,
            None => 0,
        }),
        declared_len(s) == f.payload().len(),
{
    broadcast use {crate::bigendian::lemma_be_inverse, crate::bigendian::lemma_be_len};

    crate::bigendian::lemma_base_values();
    let w = f.wire();
    let id: nat = match f.stream_id() {
        Some(id) => id as nat,
        None => 0,
    };
    assert(s[0] == s.take(HEADER_LEN as int)[0]);
    assert(s.subrange(1, 5) =~= s.take(HEADER_LEN as int).subrange(1, 5));
    assert(s.subrange(5, 9) =~= s.take(HEADER_LEN as int).subrange(5, 9));
    assert(w.take(HEADER_LEN as int).subrange(1, 5) =~= be(id, 4));
    assert(w.take(HEADER_LEN as int).subrange(5, 9) =~= be(f.payload().len(), 4));
}

/// A frame is read back from its bytes, which are taken and no more, whatever
/// follows them.
pub proof fn law_frame_round_trip(f: FrameView, rest: Seq<u8>)
    requires
        f.encodable(),
    ensures
        decode_result(f.wire() + rest) == Ok::<Option<FrameView>, ProtoError>(Some(f)),
        decode_consumed(f.wire() + rest) == f.wire().len(),
        (f.wire() + rest).skip(f.wire().len() as int) == rest,
{
    broadcast use crate::bigendian::lemma_be_len;

    let s = f.wire() + rest;
    assert(s.take(HEADER_LEN as int) =~= f.wire().take(HEADER_LEN as int));
    lemma_header(f, s);
    assert(s.subrange(HEADER_LEN as int, HEADER_LEN + f.payload().len()) =~= f.payload());
    lemma_payload_round_trip(f);
    assert(s.skip(f.wire().len() as int) =~= rest);
}

/// Part of a frame is never taken for a frame or for an error, and is left in
/// the buffer.
pub proof fn law_partial_frame_waits(f: FrameView, cut: int)
    requires
        f.encodable(),
        0 <= cut < f.wire().len(),
    ensures
        decode_result(f.wire().take(cut)) == Ok::<Option<FrameView>, ProtoError>(None),
        decode_consumed(f.wire().take(cut)) == 0,
{
    broadcast use crate::bigendian::lemma_be_len;

    let s = f.wire().take(cut);
    if cut >= HEADER_LEN {
        assert(s.take(HEADER_LEN as int) =~= f.wire().take(HEADER_LEN as int));
        lemma_header(f, s);
    }
}

/// Whatever the bytes are, decoding takes none of them while it waits for
/// more, and never more than there are.
pub proof fn law_waiting_consumes_nothing(s: Seq<u8>)
    ensures
        decode_result(s) matches Ok(None) ==> decode_consumed(s) == 0,
        decode_result(s) matches Err(ProtoError::FrameTooLarge(_)) ==> decode_consumed(s) == 0,
        decode_consumed(s) <= s.len(),
{
    crate::bigendian::lemma_from_be_bound(s.subrange(5, 9));
    if !incomplete(s) && declared_len(s) <= MAX_FRAME_PAYLOAD {
        lemma_payload_error(
            s[0],
            from_be(s.subrange(1, 5)) as u32,
            s.subrange(HEADER_LEN as int, HEADER_LEN + declared_len(s)),
        );
    }
}

proof fn lemma_payload_error(ty: u8, stream_id: u32, s: Seq<u8>)
    ensures
        !(parse_payload(ty, stream_id, s) matches Err(ProtoError::FrameTooLarge(_))),
{
}

/// A declared length beyond the limit is refused as soon as the header is
/// there, however little of the payload has come.
pub proof fn law_oversized_frame_is_refused_at_once(s: Seq<u8>)
    requires
        s.len() >= HEADER_LEN,
        declared_len(s) > MAX_FRAME_PAYLOAD,
    ensures
        decode_result(s) == Err::<Option<FrameView>, _>(
            ProtoError::FrameTooLarge(declared_len(s) as usize),
        ),
        decode_consumed(s) == 0,
{
}

/// A decision is final: once decoding gives a frame or an error, bytes that
/// come later do not change it.
pub proof fn law_more_bytes_do_not_change_a_decision(s: Seq<u8>, more: Seq<u8>)
    requires
        !incomplete(s),
    ensures
        decode_result(s + more) == decode_result(s),
        decode_consumed(s + more) == decode_consumed(s),
{
    let t = s + more;
    assert(t.subrange(1, 5) =~= s.subrange(1, 5));
    assert(t.subrange(5, 9) =~= s.subrange(5, 9));
    if declared_len(s) <= MAX_FRAME_PAYLOAD {
        assert(t.subrange(HEADER_LEN as int, HEADER_LEN + declared_len(s)) =~= s.subrange(
            HEADER_LEN as int,
            HEADER_LEN + declared_len(s),
        ));
    }
}

/// The frames that decoding over and over takes from `s`, up to the first
/// error.
pub open spec fn decode_all(s: Seq<u8>) -> Seq<FrameView>
    decreases s.len(),
{
    match decode_result(s) {
        Ok(Some(f)) => if 0 < decode_consumed(s) <= s.len() {
            seq![f] + decode_all(s.skip(decode_consumed(s) as int))
        } else {
            seq![]
        },
        _ => seq![],
    }
}

/// What decoding over and over leaves of `s`.
pub open spec fn decode_rest(s: Seq<u8>) -> Seq<u8>
    decreases s.len(),
{
    match decode_result(s) {
        Ok(Some(f)) => if 0 < decode_consumed(s) <= s.len() {
            decode_rest(s.skip(decode_consumed(s) as int))
        } else {
            s
        },
        _ => s,
    }
}

/// What several frames stand for.
pub open spec fn frame_views(frames: Seq<Frame>) -> Seq<FrameView> {
    frames.map_values(|f: Frame| f@)
}

/// Several frames on the wire, one after the other.
pub open spec fn wire_all(frames: Seq<FrameView>) -> Seq<u8>
    decreases frames.len(),
{
    if frames.len() == 0 {
        seq![]
    } else {
        frames[0].wire() + wire_all(frames.drop_first())
    }
}

/// One frame more adds its bytes at the end.
pub proof fn lemma_wire_all_push(frames: Seq<FrameView>, f: FrameView)
    ensures
        wire_all(frames.push(f)) == wire_all(frames) + f.wire(),
    decreases frames.len(),
{
    if frames.len() == 0 {
        reveal_with_fuel(wire_all, 2);
        assert(seq![f].drop_first() =~= Seq::<FrameView>::empty());
        assert(frames.push(f) =~= seq![f]);
        assert(wire_all(frames.push(f)) =~= wire_all(frames) + f.wire());
    } else {
        let tail = frames.drop_first();
        lemma_wire_all_push(tail, f);
        assert(frames.push(f).drop_first() =~= tail.push(f));
        assert(wire_all(frames.push(f)) =~= wire_all(frames) + f.wire());
    }
}

/// Frames that were sent one after the other are read back in order, and
/// nothing is left over.
pub proof fn law_pipeline_round_trip(frames: Seq<FrameView>)
    requires
        forall|i: int| 0 <= i < frames.len() ==> (#[trigger] frames[i]).encodable(),
    ensures
        decode_all(wire_all(frames)) == frames,
        decode_rest(wire_all(frames)) == Seq::<u8>::empty(),
    decreases frames.len(),
{
    broadcast use crate::bigendian::lemma_be_len;

    if frames.len() > 0 {
        let tail = frames.drop_first();
        law_pipeline_round_trip(tail);
        law_frame_round_trip(frames[0], wire_all(tail));
        assert(seq![frames[0]] + tail =~= frames);
    }
}

/// Where the bytes are cut does not matter: decoding what has come, and then
/// the rest of it with what comes later, gives the same frames as decoding
/// all of it at once.
pub proof fn law_fragmentation_changes_nothing(s: Seq<u8>, more: Seq<u8>)
    requires
        decode_result(decode_rest(s)) is Ok,
    ensures
        decode_all(s + more) == decode_all(s) + decode_all(decode_rest(s) + more),
        decode_rest(s + more) == decode_rest(decode_rest(s) + more),
    decreases s.len(),
{
    law_waiting_consumes_nothing(s);
    if incomplete(s) {
        assert(Seq::<FrameView>::empty() + decode_all(s + more) =~= decode_all(s + more));
    } else if decode_result(s) is Ok {
        law_more_bytes_do_not_change_a_decision(s, more);
        let n = decode_consumed(s) as int;
        let t = s.skip(n);
        assert((s + more).skip(n) =~= t + more);
        law_fragmentation_changes_nothing(t, more);
        let f = decode_result(s)->Ok_0->Some_0;
        assert(seq![f] + (decode_all(t) + decode_all(decode_rest(t) + more)) =~= (seq![f]
            + decode_all(t)) + decode_all(decode_rest(t) + more));
    }
}

/// A frame on the wire: the type, the number of its stream and the length of
/// its payload with the highest byte first, and the payload. What belongs to no
/// stream bears the number 0.
pub proof fn law_frames_on_the_wire(f: FrameView)
    requires
        f.payload().len() < 0x1_0000_0000,
    ensures
        ({
            let w = f.wire();
            let id = match f.stream_id() {
                Some(id) => id as int,
                None => 0,
            };
            &&& w.len() == 9 + f.payload().len()
            &&& ((w[1] * 256 + w[2]) * 256 + w[3]) * 256 + w[4] == id
            &&& ((w[5] * 256 + w[6]) * 256 + w[7]) * 256 + w[8] == f.payload().len()
            &&& w.skip(9) =~= f.payload()
            &&& w[0] == match f {
                FrameView::Hello { .. } => 0x01u8,
                FrameView::HelloAck { .. } => 0x02,
                FrameView::Open { .. } => 0x10,
                FrameView::OpenOk { .. } => 0x11,
                FrameView::OpenErr { .. } => 0x12,
                FrameView::Data { .. } => 0x20,
                FrameView::Ack { .. } => 0x21,
                FrameView::Fin { .. } => 0x22,
                FrameView::Reset { .. } => 0x23,
                FrameView::Resume { .. } => 0x30,
                FrameView::ResumeOk { .. } => 0x31,
                FrameView::ResumeErr { .. } => 0x32,
                FrameView::Ping { .. } => 0x40,
                FrameView::Pong { .. } => 0x41,
            }
        }),
{
    broadcast use {crate::bigendian::lemma_be_inverse, crate::bigendian::lemma_be_len};

    crate::bigendian::lemma_base_values();
    let w = f.wire();
    let id: nat = match f.stream_id() {
        Some(id) => id as nat,
        None => 0,
    };
    lemma_four_bytes(be(id, 4));
    lemma_four_bytes(be(f.payload().len(), 4));
    assert(w.subrange(1, 5) =~= be(id, 4));
    assert(w.subrange(5, 9) =~= be(f.payload().len(), 4));
    assert(w[1] == w.subrange(1, 5)[0] && w[2] == w.subrange(1, 5)[1]);
    assert(w[3] == w.subrange(1, 5)[2] && w[4] == w.subrange(1, 5)[3]);
    assert(w[5] == w.subrange(5, 9)[0] && w[6] == w.subrange(5, 9)[1]);
    assert(w[7] == w.subrange(5, 9)[2] && w[8] == w.subrange(5, 9)[3]);
}

proof fn lemma_four_bytes(s: Seq<u8>)
    requires
        s.len() == 4,
    ensures
        from_be(s) == ((s[0] * 256 + s[1]) * 256 + s[2]) * 256 + s[3],
{
    reveal_with_fuel(from_be, 5);
}

/// Which stream a frame belongs to.
pub proof fn law_frames_belong_to_their_stream(id: u32, n: u64, s: Seq<u8>, code: ResetCode)
    ensures
        (FrameView::Data { stream_id: id, offset: n, data: s }).stream_id() == Some(id),
        (FrameView::Ack { stream_id: id, offset: n }).stream_id() == Some(id),
        (FrameView::Fin { stream_id: id }).stream_id() == Some(id),
        (FrameView::Reset { stream_id: id, code }).stream_id() == Some(id),
        (FrameView::OpenOk { stream_id: id }).stream_id() == Some(id),
        (FrameView::Resume { stream_id: id, recv_offset: n }).stream_id() == Some(id),
        (FrameView::ResumeOk { stream_id: id, recv_offset: n }).stream_id() == Some(id),
        (FrameView::ResumeErr { stream_id: id, code }).stream_id() == Some(id),
        (FrameView::Ping { nonce: n }).stream_id() is None,
        (FrameView::Pong { nonce: n }).stream_id() is None,
{
}

/// What the payloads hold: the handshake its version, the sixteen bytes of the
/// session and a flag; the opening its address; a failure its code and its
/// message; data its offset and its bytes; all others the one number or code
/// that they are about, or nothing.
pub proof fn law_payloads_on_the_wire(f: FrameView)
    ensures
        match f {
            FrameView::Hello { version, session_id, resume } => f.payload() =~= seq![version]
                + session_id + seq![
                if resume {
                    1u8
                } else {
                    0u8
                },
            ],
            FrameView::HelloAck { version, session_id, resumed } => f.payload() =~= seq![version]
                + session_id + seq![
                if resumed {
                    1u8
                } else {
                    0u8
                },
            ],
            FrameView::Open { addr, .. } => f.payload() == addr.wire(),
            FrameView::OpenErr { code, msg, .. } => encode_utf8(msg).len() <= 65535
                ==> f.payload() =~= seq![code.number()] + be(encode_utf8(msg).len(), 2)
                + encode_utf8(msg),
            FrameView::Data { offset, data, .. } => f.payload() =~= be(offset as nat, 8) + data,
            FrameView::Ack { offset, .. } => f.payload() == be(offset as nat, 8),
            FrameView::Resume { recv_offset, .. } => f.payload() == be(recv_offset as nat, 8),
            FrameView::ResumeOk { recv_offset, .. } => f.payload() == be(recv_offset as nat, 8),
            FrameView::Ping { nonce } => f.payload() == be(nonce as nat, 8),
            FrameView::Pong { nonce } => f.payload() == be(nonce as nat, 8),
            FrameView::Reset { code, .. } => f.payload() =~= seq![code.number()],
            FrameView::ResumeErr { code, .. } => f.payload() =~= seq![code.number()],
            FrameView::OpenOk { .. } => f.payload().len() == 0,
            FrameView::Fin { .. } => f.payload().len() == 0,
        },
        ResetCode::Normal.number() == 0,
        ResetCode::ConnectFailed.number() == 1,
        ResetCode::UnknownStream.number() == 2,
        ResetCode::ResumeImpossible.number() == 3,
        ResetCode::Internal.number() == 4,
        ResetCode::Forbidden.number() == 5,
{
}

/// A message that does not fit is cut off where it has to be.
pub proof fn law_long_messages_are_cut(id: u32, code: ResetCode, msg: Seq<char>)
    requires
        encode_utf8(msg).len() > 65535,
    ensures
        (FrameView::OpenErr { stream_id: id, code, msg }).payload() =~= seq![code.number()] + be(
            65535,
            2,
        ) + encode_utf8(msg).take(65535),
{
}

/// An unknown code means an internal error.
pub proof fn law_unknown_codes_are_internal(v: u8)
    requires
        v > 5,
    ensures
        ResetCode::numbered(v) == ResetCode::Internal,
{
}

/// Payloads are read from their front, and more bytes than are needed change
/// nothing.
pub proof fn law_payloads_are_read_from_the_front(id: u32, n: u64, v: u8, rest: Seq<u8>)
    ensures
        parse_payload(0x20, id, be(n as nat, 8) + rest) == Ok::<FrameView, ProtoError>(
            FrameView::Data { stream_id: id, offset: n, data: rest },
        ),
        parse_payload(0x21, id, be(n as nat, 8) + rest) == Ok::<FrameView, ProtoError>(
            FrameView::Ack { stream_id: id, offset: n },
        ),
        parse_payload(0x30, id, be(n as nat, 8) + rest) == Ok::<FrameView, ProtoError>(
            FrameView::Resume { stream_id: id, recv_offset: n },
        ),
        parse_payload(0x31, id, be(n as nat, 8) + rest) == Ok::<FrameView, ProtoError>(
            FrameView::ResumeOk { stream_id: id, recv_offset: n },
        ),
        parse_payload(0x40, id, be(n as nat, 8) + rest) == Ok::<FrameView, ProtoError>(
            FrameView::Ping { nonce: n },
        ),
        parse_payload(0x41, id, be(n as nat, 8) + rest) == Ok::<FrameView, ProtoError>(
            FrameView::Pong { nonce: n },
        ),
        parse_payload(0x23, id, seq![v] + rest) == Ok::<FrameView, ProtoError>(
            FrameView::Reset { stream_id: id, code: ResetCode::numbered(v) },
        ),
        parse_payload(0x32, id, seq![v] + rest) == Ok::<FrameView, ProtoError>(
            FrameView::ResumeErr { stream_id: id, code: ResetCode::numbered(v) },
        ),
        parse_payload(0x11, id, rest) == Ok::<FrameView, ProtoError>(
            FrameView::OpenOk { stream_id: id },
        ),
        parse_payload(0x22, id, rest) == Ok::<FrameView, ProtoError>(
            FrameView::Fin { stream_id: id },
        ),
{
    broadcast use {crate::bigendian::lemma_be_inverse, crate::bigendian::lemma_be_len};

    crate::bigendian::lemma_base_values();
    let s = be(n as nat, 8) + rest;
    assert(s.take(8) =~= be(n as nat, 8));
    assert(s.skip(8) =~= rest);
    assert((seq![v] + rest)[0] == v);
}

/// A handshake is read from its eighteen bytes: any flag but zero is set.
pub proof fn law_handshakes_are_read(id: u32, version: u8, session: Seq<u8>, set: u8, rest: Seq<u8>)
    requires
        session.len() == 16,
    ensures
        parse_payload(0x01, id, seq![version] + session + seq![set] + rest) == Ok::<
            FrameView,
            ProtoError,
        >(FrameView::Hello { version, session_id: session, resume: set != 0 }),
        parse_payload(0x02, id, seq![version] + session + seq![set] + rest) == Ok::<
            FrameView,
            ProtoError,
        >(FrameView::HelloAck { version, session_id: session, resumed: set != 0 }),
{
    let s = seq![version] + session + seq![set] + rest;
    assert(s.subrange(1, 17) =~= session);
    assert(s[0] == version);
    assert(s[17] == set);
}

/// What cannot be read: a payload that ends too early, and a type that nobody
/// knows.
pub proof fn law_unreadable_payloads(ty: u8, id: u32, s: Seq<u8>)
    ensures
        (ty == 0x01 || ty == 0x02) && s.len() < 18 ==> parse_payload(ty, id, s) == Err::<
            FrameView,
            ProtoError,
        >(ProtoError::Truncated),
        (ty == 0x20 || ty == 0x21 || ty == 0x30 || ty == 0x31 || ty == 0x40 || ty == 0x41)
            && s.len() < 8 ==> parse_payload(ty, id, s) == Err::<FrameView, ProtoError>(
            ProtoError::Truncated,
        ),
        (ty == 0x23 || ty == 0x32) && s.len() < 1 ==> parse_payload(ty, id, s) == Err::<
            FrameView,
            ProtoError,
        >(ProtoError::Truncated),
        ty == 0x12 && (s.len() < 3 || s.len() < 3 + 256 * s[1] + s[2]) ==> parse_payload(ty, id, s)
            == Err::<FrameView, ProtoError>(ProtoError::Truncated),
        !(ty == 0x01 || ty == 0x02 || 0x10 <= ty <= 0x12 || 0x20 <= ty <= 0x23 || 0x30 <= ty <= 0x32
            || ty == 0x40 || ty == 0x41) ==> parse_payload(ty, id, s) == Err::<
            FrameView,
            ProtoError,
        >(ProtoError::BadFrameType(ty)),
{
    if s.len() >= 3 {
        crate::bigendian::law_two_bytes(0, s[1], s[2]);
        assert(s.subrange(1, 3) =~= seq![s[1], s[2]]);
    }
}

/// How far decoding gets with the bytes that are there: it waits for the
/// header, refuses a declared length of more than 256 KiB, waits for the
/// payload, and then takes the frame.
pub proof fn law_decoding_goes_by_the_declared_length(s: Seq<u8>)
    ensures
        s.len() < 9 ==> decode_result(s) == Ok::<Option<FrameView>, ProtoError>(None)
            && decode_consumed(s) == 0,
        s.len() >= 9 ==> {
            let len = ((s[5] * 256 + s[6]) * 256 + s[7]) * 256 + s[8];
            &&& len > 262144 ==> decode_result(s) == Err::<Option<FrameView>, ProtoError>(
                ProtoError::FrameTooLarge(len as usize),
            )
            &&& len <= 262144 && s.len() < 9 + len ==> decode_result(s) == Ok::<
                Option<FrameView>,
                ProtoError,
            >(None)
            &&& len > 262144 || s.len() < 9 + len ==> decode_consumed(s) == 0
            &&& len <= 262144 && s.len() >= 9 + len ==> {
                &&& decode_consumed(s) == 9 + len
                &&& !(decode_result(s) matches Ok(None))
            }
        },
{
    if s.len() >= 9 {
        lemma_four_bytes(s.subrange(5, 9));
    }
}

/// An opening is read from its address, and a failure from its code and from a
/// message of the length in front of it, whatever follows.
pub proof fn law_openings_and_failures_are_read(
    id: u32,
    addr: AddrView,
    v: u8,
    text: Seq<u8>,
    rest: Seq<u8>,
)
    requires
        addr.encodable(),
        text.len() <= 65535,
    ensures
        parse_payload(0x10, id, addr.wire() + rest) == Ok::<FrameView, ProtoError>(
            FrameView::Open { stream_id: id, addr },
        ),
        ({
            let r = parse_payload(0x12, id, seq![v] + be(text.len(), 2) + text + rest);
            &&& r is Ok
            &&& r->Ok_0 is OpenErr
            &&& r->Ok_0->OpenErr_stream_id == id
            &&& r->Ok_0->OpenErr_code == ResetCode::numbered(v)
            &&& valid_utf8(text) ==> r->Ok_0->OpenErr_msg == decode_utf8(text)
        }),
{
    broadcast use {crate::bigendian::lemma_be_inverse, crate::bigendian::lemma_be_len};

    crate::bigendian::lemma_base_values();
    crate::addr::law_addr_round_trip(addr, rest);
    let s = seq![v] + be(text.len(), 2) + text + rest;
    assert(s[0] == v);
    assert(s.subrange(1, 3) =~= be(text.len(), 2));
    assert(s.subrange(3, 3 + text.len() as int) =~= text);
}

/// A frame that is there in full is what its type, the number of its stream and
/// its payload say.
pub proof fn law_whole_frames_are_decoded(s: Seq<u8>)
    requires
        s.len() >= 9,
    ensures
        ({
            let id = ((s[1] * 256 + s[2]) * 256 + s[3]) * 256 + s[4];
            let len = ((s[5] * 256 + s[6]) * 256 + s[7]) * 256 + s[8];
            len <= 262144 && s.len() >= 9 + len ==> decode_result(s) == match parse_payload(
                s[0],
                id as u32,
                s.subrange(9, 9 + len),
            ) {
                Ok(f) => Ok::<Option<FrameView>, ProtoError>(Some(f)),
                Err(e) => Err(e),
            }
        }),
{
    lemma_four_bytes(s.subrange(1, 5));
    lemma_four_bytes(s.subrange(5, 9));
}

} // verus!
