//! Connections as channels that the server itself connects.
//!
//! Nothing has gone through a channel before it is open, so a request for one
//! may be made again on another session when the tunnel breaks under it. Once
//! data flows that is over.

use vstd::prelude::*;

use super::config::Span;
use crate::frontend::{DialError, IoFailure};
use crate::TargetAddr;

verus! {

/// How often a request for a channel is made again.
pub const MAX_REPLAYS: u32 = 2;

/// How long to wait before a request is made again, for a new session to come
/// up.
pub const REPLAY_PAUSE_MILLIS: u64 = 50;

/// Why the server opened no channel.
#[derive(Debug, Clone, Copy, PartialEq, Eq, Structural)]
pub enum ChannelRefusal {
    AdministrativelyProhibited,
    ConnectFailed,
    UnknownChannelType,
    ResourceShortage,
    /// A reason without a name.
    Other,
}

/// How a request for a channel failed.
#[derive(Debug, Clone, Copy, PartialEq, Eq, Structural)]
pub enum SshFailure {
    /// The server answered that it will not.
    ChannelOpenFailure(ChannelRefusal),
    Disconnect,
    SendError,
    Hup,
    RecvError,
    ConnectionTimeout,
    KeepaliveTimeout,
    InactivityTimeout,
    Io(IoFailure),
    /// Anything else: the protocol, a key, the configuration.
    Other,
}

impl SshFailure {
    /// Whether it is the connection to the server that failed.
    pub open spec fn of_transport(self) -> bool {
        match self {
            SshFailure::ChannelOpenFailure(_) => false,
            SshFailure::Other => false,
            _ => true,
        }
    }

    /// What the client is told.
    pub open spec fn told(self) -> DialError {
        match self {
            SshFailure::ChannelOpenFailure(reason) => match reason {
                ChannelRefusal::AdministrativelyProhibited => DialError::Forbidden,
                ChannelRefusal::ConnectFailed => DialError::ConnectionRefused,
                _ => DialError::Internal,
            },
            SshFailure::Disconnect => DialError::NetworkUnreachable,
            SshFailure::SendError => DialError::NetworkUnreachable,
            SshFailure::Hup => DialError::NetworkUnreachable,
            SshFailure::RecvError => DialError::NetworkUnreachable,
            SshFailure::ConnectionTimeout => DialError::TimedOut,
            SshFailure::KeepaliveTimeout => DialError::TimedOut,
            SshFailure::InactivityTimeout => DialError::TimedOut,
            SshFailure::Io(IoFailure::TimedOut) => DialError::TimedOut,
            SshFailure::Io(IoFailure::ConnectionRefused) => DialError::ConnectionRefused,
            SshFailure::Io(_) => DialError::NetworkUnreachable,
            SshFailure::Other => DialError::Internal,
        }
    }
}

/// Whether it is the connection to the server that failed. Only then was the
/// request never answered.
pub fn is_transport_failure(e: &SshFailure) -> (r: bool)
    ensures
        r == e.of_transport(),
{
    match e {
        SshFailure::ChannelOpenFailure(_) => false,
        SshFailure::Other => false,
        _ => true,
    }
}

/// What the client is told of a failure.
pub fn classify_open_error(e: &SshFailure) -> (r: DialError)
    ensures
        r == e.told(),
{
    match e {
        SshFailure::ChannelOpenFailure(reason) => match reason {
            ChannelRefusal::AdministrativelyProhibited => DialError::Forbidden,
            ChannelRefusal::ConnectFailed => DialError::ConnectionRefused,
            _ => DialError::Internal,
        },
        SshFailure::Disconnect => DialError::NetworkUnreachable,
        SshFailure::SendError => DialError::NetworkUnreachable,
        SshFailure::Hup => DialError::NetworkUnreachable,
        SshFailure::RecvError => DialError::NetworkUnreachable,
        SshFailure::ConnectionTimeout => DialError::TimedOut,
        SshFailure::KeepaliveTimeout => DialError::TimedOut,
        SshFailure::InactivityTimeout => DialError::TimedOut,
        SshFailure::Io(IoFailure::TimedOut) => DialError::TimedOut,
        SshFailure::Io(IoFailure::ConnectionRefused) => DialError::ConnectionRefused,
        SshFailure::Io(_) => DialError::NetworkUnreachable,
        SshFailure::Other => DialError::Internal,
    }
}

/// How long each part of opening a channel may take.
#[derive(Debug, Clone, Copy, PartialEq, Eq, Structural)]
pub struct DirectTcpipDialer {
    /// For the tunnel to come up.
    pub dial_wait: Span,
    /// For the server to answer.
    pub open_timeout: Span,
}

impl DirectTcpipDialer {
    pub fn new(dial_wait: Span) -> (r: DirectTcpipDialer)
        ensures
            r == (DirectTcpipDialer { dial_wait, open_timeout: Span { secs: 30, nanos: 0 } }),
    {
        DirectTcpipDialer { dial_wait, open_timeout: Span::from_secs(30) }
    }

    pub fn with_open_timeout(self, t: Span) -> (r: DirectTcpipDialer)
        ensures
            r == (DirectTcpipDialer { open_timeout: t, ..self }),
    {
        DirectTcpipDialer { dial_wait: self.dial_wait, open_timeout: t }
    }

    /// The host and port to ask the server for. A name goes as it is: the
    /// server looks it up.
    pub fn request(addr: &TargetAddr) -> (r: (String, u32))
        ensures
            r.0@ == addr@.host_text(),
            r.1 == addr@.port(),
    {
        (addr.host_string(), addr.port() as u32)
    }
}

/// What came of one request for a channel.
#[derive(Debug, Clone, Copy, PartialEq, Eq, Structural)]
pub enum OpenEvent {
    /// There was no session to make it on.
    NoSession,
    Opened,
    /// It failed, on a session that is dead by now or not.
    Failed { failure: SshFailure, dead: bool },
    /// The server did not answer in time.
    TimedOut { dead: bool },
}

/// What follows.
#[derive(Debug, Clone, Copy, PartialEq, Eq, Structural)]
pub enum OpenStep {
    /// The channel is the client's.
    Done,
    /// Have the tunnel rebuilt, wait, and make the request again.
    Replay { pause_millis: u64 },
    /// Tell the client.
    Fail(DialError),
}

/// The requests for one channel.
#[derive(Debug)]
pub struct DirectDial {
    replays: u32,
}

/// What follows a request that was made again so many times.
pub open spec fn open_step(replays: nat, event: OpenEvent) -> OpenStep {
    match event {
        OpenEvent::NoSession => OpenStep::Fail(DialError::NetworkUnreachable),
        OpenEvent::Opened => OpenStep::Done,
        OpenEvent::Failed { failure, dead } => if replays < MAX_REPLAYS && (failure.of_transport()
            || dead) {
            OpenStep::Replay { pause_millis: REPLAY_PAUSE_MILLIS }
        } else {
            OpenStep::Fail(failure.told())
        },
        OpenEvent::TimedOut { dead } => if replays < MAX_REPLAYS && dead {
            OpenStep::Replay { pause_millis: 0 }
        } else {
            OpenStep::Fail(DialError::TimedOut)
        },
    }
}

impl DirectDial {
    /// How often the request was made again.
    pub closed spec fn replays(self) -> nat {
        self.replays as nat
    }

    pub fn new() -> (r: DirectDial)
        ensures
            r.replays() == 0,
    {
        DirectDial { replays: 0 }
    }

    /// Decides what follows.
    pub fn on_event(&mut self, event: OpenEvent) -> (r: OpenStep)
        ensures
            r == open_step(old(self).replays(), event),
            final(self).replays() == old(self).replays() + (if r is Replay {
                1nat
            } else {
                0nat
            }),
    {
        match event {
            OpenEvent::NoSession => OpenStep::Fail(DialError::NetworkUnreachable),
            OpenEvent::Opened => OpenStep::Done,
            OpenEvent::Failed { failure, dead } => {
                if self.replays < MAX_REPLAYS && (is_transport_failure(&failure) || dead) {
                    self.replays = self.replays + 1;
                    OpenStep::Replay { pause_millis: REPLAY_PAUSE_MILLIS }
                } else {
                    OpenStep::Fail(classify_open_error(&failure))
                }
            },
            OpenEvent::TimedOut { dead } => {
                if self.replays < MAX_REPLAYS && dead {
                    self.replays = self.replays + 1;
                    OpenStep::Replay { pause_millis: 0 }
                } else {
                    OpenStep::Fail(DialError::TimedOut)
                }
            },
        }
    }
}

/// What the server refused on a session that lives is not asked for again: the
/// client is told the server's reason.
pub proof fn law_refusals_are_final(replays: nat, reason: ChannelRefusal)
    ensures
        open_step(
            replays,
            OpenEvent::Failed { failure: SshFailure::ChannelOpenFailure(reason), dead: false },
        ) == OpenStep::Fail(SshFailure::ChannelOpenFailure(reason).told()),
{
}

/// How often a request is made again along some events.
pub open spec fn replayed(events: Seq<OpenEvent>) -> nat
    decreases events.len(),
{
    if events.len() == 0 {
        0
    } else {
        let before = replayed(events.drop_last());
        if open_step(before, events.last()) is Replay {
            before + 1
        } else {
            before
        }
    }
}

/// However the requests for a channel go, no more than so many are made again,
/// and a failure after that is told to the client.
pub proof fn law_replays_are_bounded(events: Seq<OpenEvent>, next: OpenEvent)
    ensures
        replayed(events) <= MAX_REPLAYS,
        replayed(events) == MAX_REPLAYS && !(next is Opened) ==> open_step(replayed(events), next)
            is Fail,
    decreases events.len(),
{
    if events.len() > 0 {
        law_replays_are_bounded(events.drop_last(), next);
    }
}

/// What the server answers and what the protocol or the configuration got
/// wrong is no failure of the connection; everything else is.
pub proof fn law_answers_are_no_transport_failures(e: SshFailure)
    ensures
        e.of_transport() <==> !(e is ChannelOpenFailure) && !(e is Other),
{
}

/// What the client is told: the server's refusals by their reason, what took
/// too long as such, a refused connection as such, and every other loss of the
/// connection as a network that cannot be reached.
pub proof fn law_failures_are_told_by_their_cause(e: SshFailure, reason: ChannelRefusal, io: IoFailure)
    ensures
        SshFailure::ChannelOpenFailure(reason).told() == if reason is AdministrativelyProhibited {
            DialError::Forbidden
        } else if reason is ConnectFailed {
            DialError::ConnectionRefused
        } else {
            DialError::Internal
        },
        e is ConnectionTimeout || e is KeepaliveTimeout || e is InactivityTimeout ==> e.told()
            == DialError::TimedOut,
        e is Disconnect || e is SendError || e is Hup || e is RecvError ==> e.told()
            == DialError::NetworkUnreachable,
        e is Other ==> e.told() == DialError::Internal,
        SshFailure::Io(io).told() == if io is TimedOut {
            DialError::TimedOut
        } else if io is ConnectionRefused {
            DialError::ConnectionRefused
        } else {
            DialError::NetworkUnreachable
        },
{
}

/// A request that met a broken connection is made again, twice at most, since
/// nothing has gone through the channel yet. What fails on a live one, or after
/// that, is told to the client, and an open channel is the client's.
pub proof fn law_broken_requests_are_made_again(replays: nat, e: SshFailure, dead: bool)
    ensures
        open_step(replays, OpenEvent::Opened) == OpenStep::Done,
        open_step(replays, OpenEvent::NoSession) == OpenStep::Fail(DialError::NetworkUnreachable),
        replays < 2 && (dead || (!(e is ChannelOpenFailure) && !(e is Other))) ==> open_step(
            replays,
            OpenEvent::Failed { failure: e, dead },
        ) == (OpenStep::Replay { pause_millis: 50 }),
        replays < 2 && !dead && (e is ChannelOpenFailure || e is Other) ==> open_step(
            replays,
            OpenEvent::Failed { failure: e, dead },
        ) == OpenStep::Fail(e.told()),
        replays >= 2 ==> open_step(replays, OpenEvent::Failed { failure: e, dead })
            == OpenStep::Fail(e.told()),
        replays < 2 && dead ==> open_step(replays, OpenEvent::TimedOut { dead })
            == (OpenStep::Replay { pause_millis: 0 }),
        replays >= 2 || !dead ==> open_step(replays, OpenEvent::TimedOut { dead })
            == OpenStep::Fail(DialError::TimedOut),
{
}

} // verus!
