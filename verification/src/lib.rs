//! Self-healing SSH proxy: the wire protocol, the resumable streams and the
//! decisions of the client and of the remote helper.

use vstd::prelude::*;

pub mod addr;
pub mod allow;
pub mod bigendian;
pub mod buf;
pub mod cli;
pub mod driver;
pub mod frame;
pub mod frontend;
pub mod helper;
pub mod interop;
pub mod ip;
pub mod mux;
pub mod resume;
pub mod session;
pub mod stream;
pub mod testkit;
pub mod text;
pub mod tunnel;

pub use addr::TargetAddr;
pub use frame::{
    Frame, ResetCode, SessionId, StreamId, DATA_CHUNK, DEFAULT_STREAM_WINDOW, HEADER_LEN,
    MAX_FRAME_PAYLOAD, PROTO_VERSION,
};
pub use resume::{RecvTracker, ResumeError, SendBuffer};

use text::{decimal, digit_char, push_decimal, push_numeral, push_text, string_from_chars};

verus! {

/// Why bytes from the peer were refused.
#[derive(Debug, Clone, Copy, PartialEq, Eq, Structural)]
pub enum ProtoError {
    /// A payload ends before its fields do.
    Truncated,
    /// No address kind has this number.
    BadAddrKind(u8),
    /// A domain name is empty or no UTF-8.
    BadDomain,
    /// No frame type has this number.
    BadFrameType(u8),
    /// A frame declares a payload of more than the permitted size.
    FrameTooLarge(usize),
    /// The peer speaks another version of the protocol.
    VersionMismatch { local: u8, peer: u8 },
}

impl ProtoError {
    /// The error for people to read.
    pub open spec fn text(self) -> Seq<char> {
        match self {
            ProtoError::Truncated => "buffer truncated"@,
            ProtoError::BadAddrKind(kind) => "unknown address kind "@ + decimal(kind as nat),
            ProtoError::BadDomain => "invalid domain name"@,
            ProtoError::BadFrameType(ty) => "unknown frame type 0x"@ + seq![
                digit_char(ty as nat / 16),
                digit_char(ty as nat % 16),
            ],
            ProtoError::FrameTooLarge(n) => "frame payload too large: "@ + decimal(n as nat)
                + " bytes"@,
            ProtoError::VersionMismatch { local, peer } => "protocol version mismatch: local "@
                + decimal(local as nat) + ", peer "@ + decimal(peer as nat),
        }
    }

    /// The error for people to read.
    pub fn message(&self) -> (r: String)
        ensures
            r@ == self.text(),
    {
        let mut out: Vec<char> = Vec::new();
        match self {
            ProtoError::Truncated => push_text(&mut out, "buffer truncated"),
            ProtoError::BadAddrKind(kind) => {
                push_text(&mut out, "unknown address kind ");
                push_decimal(&mut out, *kind as u64);
            },
            ProtoError::BadDomain => push_text(&mut out, "invalid domain name"),
            ProtoError::BadFrameType(ty) => {
                push_text(&mut out, "unknown frame type 0x");
                push_numeral(&mut out, (*ty / 16) as u64, 16);
                push_numeral(&mut out, (*ty % 16) as u64, 16);
            },
            ProtoError::FrameTooLarge(n) => {
                push_text(&mut out, "frame payload too large: ");
                push_decimal(&mut out, *n as u64);
                push_text(&mut out, " bytes");
            },
            ProtoError::VersionMismatch { local, peer } => {
                push_text(&mut out, "protocol version mismatch: local ");
                push_decimal(&mut out, *local as u64);
                push_text(&mut out, ", peer ");
                push_decimal(&mut out, *peer as u64);
            },
        }
        assert(out@ =~= self.text());
        string_from_chars(out)
    }
}

} // verus!
