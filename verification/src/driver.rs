//! What runs the client's helper session: the loop that keeps a helper going
//! over one SSH connection after the other, and the pump between a stream and
//! its local side.

use bytes::Bytes;
use rand::Rng;
use vstd::prelude::*;

use crate::buf::content;
use crate::frontend::DialError;
use crate::session::{CommandView, MuxCommand};
use crate::{SessionId, StreamId};

verus! {

/// How long to wait before a helper that did not start is started again.
pub const HELPER_RETRY_MILLIS: u64 = 500;

/// How often the driver looks for a connection while there is none.
pub const SESSION_POLL_MILLIS: u64 = 200;

/// How a session on one channel ended.
#[derive(Debug, Clone, Copy, PartialEq, Eq, Structural)]
pub enum SessionOutcome {
    /// The channel is gone; the streams wait to be resumed.
    ChannelLost,
    /// The local side has shut down.
    Shutdown,
}

/// What has happened to the driver.
#[derive(Debug, Clone, Copy, PartialEq, Eq, Structural)]
pub enum DriverEvent {
    /// There is an SSH connection.
    Connected,
    /// The local side has shut down while waiting for one.
    Closed,
    /// The helper runs on a new channel.
    HelperStarted,
    /// The helper could not be started.
    HelperFailed,
    /// The session on the channel has ended.
    Ended(SessionOutcome),
}

/// What the driver does next.
#[derive(Debug, Clone, Copy, PartialEq, Eq, Structural)]
pub enum DriverAction {
    /// Wait for an SSH connection, and take commands meanwhile.
    WaitForConnection,
    /// Report the connection as broken, pause, and wait for another.
    ReportBroken { pause_millis: u64 },
    /// Start the helper on a new channel.
    StartHelper,
    /// Run a session. It is not the first of this driver.
    RunSession { again: bool },
    /// Stop for good.
    Stop,
}

/// Keeps a helper session going.
#[derive(Debug)]
pub struct MuxDriver {
    /// The session, by which the helper knows its streams again.
    pub session_id: SessionId,
    /// A helper has been started before.
    pub started: bool,
}

/// `rand::rng` and `Rng::fill`: sixteen bytes from the generator of this
/// thread. Nothing is said of them, as they are random.
#[verifier::external_body]
fn random_session_id() -> (id: SessionId) {
    let mut id = [0u8; 16];
    rand::rng().fill(&mut id);
    id
}

impl MuxDriver {
    /// A driver for the given session.
    pub fn with_session(session_id: SessionId) -> (r: MuxDriver)
        ensures
            r.session_id == session_id,
            !r.started,
    {
        MuxDriver { session_id, started: false }
    }

    /// A driver for a session with a random name.
    pub fn new() -> (r: MuxDriver)
        ensures
            !r.started,
    {
        MuxDriver::with_session(random_session_id())
    }

    /// What an event makes the driver do.
    pub open spec fn reaction(self, event: DriverEvent) -> DriverAction {
        match event {
            DriverEvent::Connected => DriverAction::StartHelper,
            DriverEvent::Closed => DriverAction::Stop,
            DriverEvent::HelperStarted => DriverAction::RunSession { again: self.started },
            DriverEvent::HelperFailed => DriverAction::ReportBroken {
                pause_millis: HELPER_RETRY_MILLIS,
            },
            DriverEvent::Ended(SessionOutcome::ChannelLost) => DriverAction::ReportBroken {
                pause_millis: 0,
            },
            DriverEvent::Ended(SessionOutcome::Shutdown) => DriverAction::Stop,
        }
    }

    /// Takes an event and says what to do next. Having reported a broken
    /// connection, the driver waits for another.
    pub fn supervise(&mut self, event: DriverEvent) -> (r: DriverAction)
        ensures
            r == old(self).reaction(event),
            final(self).session_id == old(self).session_id,
            final(self).started == (old(self).started || event == DriverEvent::HelperStarted),
    {
        match event {
            DriverEvent::Connected => DriverAction::StartHelper,
            DriverEvent::Closed => DriverAction::Stop,
            DriverEvent::HelperStarted => {
                let again: bool = self.started;
                self.started = true;
                DriverAction::RunSession { again }
            },
            DriverEvent::HelperFailed => DriverAction::ReportBroken {
                pause_millis: HELPER_RETRY_MILLIS,
            },
            DriverEvent::Ended(SessionOutcome::ChannelLost) => DriverAction::ReportBroken {
                pause_millis: 0,
            },
            DriverEvent::Ended(SessionOutcome::Shutdown) => DriverAction::Stop,
        }
    }
}

/// A lost channel never stops the driver: it reports and tries again.
pub proof fn law_lost_channel_is_retried(d: MuxDriver)
    ensures
        d.reaction(DriverEvent::Ended(SessionOutcome::ChannelLost)) is ReportBroken,
        d.reaction(DriverEvent::HelperFailed) is ReportBroken,
{
}

/// What came of a request for a stream.
#[derive(Debug, Clone, Copy, PartialEq, Eq)]
pub enum DialReply {
    /// The driver has answered.
    Answered(Result<(), DialError>),
    /// The driver is gone.
    DriverGone,
    /// No answer came in time.
    TimedOut,
}

/// What the request is told.
pub open spec fn dialed(reply: DialReply) -> Result<(), DialError> {
    match reply {
        DialReply::Answered(r) => r,
        DialReply::DriverGone => Err(DialError::Internal),
        DialReply::TimedOut => Err(DialError::TimedOut),
    }
}

/// What the request is told.
pub fn dial_outcome(reply: DialReply) -> (r: Result<(), DialError>)
    ensures
        r == dialed(reply),
{
    match reply {
        DialReply::Answered(r) => r,
        DialReply::DriverGone => Err(DialError::Internal),
        DialReply::TimedOut => Err(DialError::TimedOut),
    }
}

/// What has happened to the pump of a stream.
#[derive(Debug)]
pub enum PumpEvent {
    /// The local side was read; no bytes mean its end.
    LocalRead(Bytes),
    /// The local side cannot be read.
    LocalReadFailed,
    /// Bytes of the stream are to go to the local side.
    Inbound(Bytes),
    /// No more bytes will come.
    InboundClosed,
    /// The local side cannot be written.
    LocalWriteFailed,
    /// The remote side has stopped writing.
    RemoteFin,
    /// The stream is over.
    Terminated,
    /// The session takes no more commands.
    SessionGone,
}

/// What the pump does next.
#[derive(Debug)]
pub enum PumpAction {
    /// Read on.
    Nothing,
    /// Give the session a command.
    Command(MuxCommand),
    /// Give the session a command and stop.
    CommandAndStop(MuxCommand),
    /// Write the bytes to the local side.
    Write(Bytes),
    /// Let the local side see the end of its input.
    Shutdown,
    /// Let the local side see the end of its input and stop.
    ShutdownAndStop,
    /// Stop.
    Stop,
}

/// What a pump event stands for.
#[verifier::ext_equal]
pub enum PumpEventView {
    LocalRead(Seq<u8>),
    LocalReadFailed,
    Inbound(Seq<u8>),
    InboundClosed,
    LocalWriteFailed,
    RemoteFin,
    Terminated,
    SessionGone,
}

impl View for PumpEvent {
    type V = PumpEventView;

    open spec fn view(&self) -> PumpEventView {
        match self {
            PumpEvent::LocalRead(b) => PumpEventView::LocalRead(content(*b)),
            PumpEvent::LocalReadFailed => PumpEventView::LocalReadFailed,
            PumpEvent::Inbound(b) => PumpEventView::Inbound(content(*b)),
            PumpEvent::InboundClosed => PumpEventView::InboundClosed,
            PumpEvent::LocalWriteFailed => PumpEventView::LocalWriteFailed,
            PumpEvent::RemoteFin => PumpEventView::RemoteFin,
            PumpEvent::Terminated => PumpEventView::Terminated,
            PumpEvent::SessionGone => PumpEventView::SessionGone,
        }
    }
}

/// What a pump action stands for.
#[verifier::ext_equal]
pub enum PumpActionView {
    Nothing,
    Command(CommandView),
    CommandAndStop(CommandView),
    Write(Seq<u8>),
    Shutdown,
    ShutdownAndStop,
    Stop,
}

impl View for PumpAction {
    type V = PumpActionView;

    open spec fn view(&self) -> PumpActionView {
        match self {
            PumpAction::Nothing => PumpActionView::Nothing,
            PumpAction::Command(c) => PumpActionView::Command(c@),
            PumpAction::CommandAndStop(c) => PumpActionView::CommandAndStop(c@),
            PumpAction::Write(b) => PumpActionView::Write(content(*b)),
            PumpAction::Shutdown => PumpActionView::Shutdown,
            PumpAction::ShutdownAndStop => PumpActionView::ShutdownAndStop,
            PumpAction::Stop => PumpActionView::Stop,
        }
    }
}

/// Moves bytes between a stream and its local side.
#[derive(Debug)]
pub struct LocalPump {
    pub stream_id: StreamId,
    /// The local side has stopped writing and is no longer read.
    pub local_eof: bool,
    /// The remote side has stopped writing.
    pub remote_fin: bool,
}

impl LocalPump {
    /// A pump for a new stream.
    pub fn new(stream_id: StreamId) -> (r: LocalPump)
        ensures
            r.stream_id == stream_id,
            !r.local_eof,
            !r.remote_fin,
    {
        LocalPump { stream_id, local_eof: false, remote_fin: false }
    }

    /// What an event makes the pump do.
    pub open spec fn reaction(self, event: PumpEventView) -> PumpActionView {
        let id = self.stream_id;
        let close = PumpActionView::CommandAndStop(CommandView::LocalClose { stream_id: id });
        match event {
            PumpEventView::LocalRead(data) => PumpActionView::Command(
                if data.len() == 0 {
                    CommandView::LocalEof { stream_id: id }
                } else {
                    CommandView::LocalData { stream_id: id, data }
                },
            ),
            PumpEventView::LocalReadFailed => close,
            PumpEventView::Inbound(data) => PumpActionView::Write(data),
            PumpEventView::InboundClosed => PumpActionView::ShutdownAndStop,
            PumpEventView::LocalWriteFailed => close,
            PumpEventView::RemoteFin => PumpActionView::Shutdown,
            PumpEventView::Terminated => PumpActionView::ShutdownAndStop,
            PumpEventView::SessionGone => PumpActionView::Stop,
        }
    }

    /// Takes an event and says what to do next.
    pub fn on_event(&mut self, event: PumpEvent) -> (r: PumpAction)
        ensures
            r@ == old(self).reaction(event@),
            final(self).stream_id == old(self).stream_id,
            final(self).local_eof == (old(self).local_eof || event@ == PumpEventView::LocalRead(
                seq![],
            )),
            final(self).remote_fin == (old(self).remote_fin || event@ is RemoteFin),
    {
        let id: u32 = self.stream_id;
        match event {
            PumpEvent::LocalRead(data) => {
                if data.len() == 0 {
                    assert(content(data) =~= seq![]);
                    self.local_eof = true;
                    PumpAction::Command(MuxCommand::LocalEof { stream_id: id })
                } else {
                    assert(content(data) != Seq::<u8>::empty());
                    PumpAction::Command(MuxCommand::LocalData { stream_id: id, data })
                }
            },
            PumpEvent::LocalReadFailed => PumpAction::CommandAndStop(
                MuxCommand::LocalClose { stream_id: id },
            ),
            PumpEvent::Inbound(data) => PumpAction::Write(data),
            PumpEvent::InboundClosed => PumpAction::ShutdownAndStop,
            PumpEvent::LocalWriteFailed => PumpAction::CommandAndStop(
                MuxCommand::LocalClose { stream_id: id },
            ),
            PumpEvent::RemoteFin => {
                self.remote_fin = true;
                PumpAction::Shutdown
            },
            PumpEvent::Terminated => PumpAction::ShutdownAndStop,
            PumpEvent::SessionGone => PumpAction::Stop,
        }
    }
}

/// What a caller is told where there is no helper.
pub fn helper_unavailable() -> (r: &'static str)
    ensures
        r@ == "helper mode is not available"@,
{
    "helper mode is not available"
}

/// The driver starts a helper on every connection and runs a session on every
/// helper, told whether it is the first. What breaks is reported, with a pause
/// where the helper did not start; only the local side's end stops it.
pub proof fn law_the_driver_keeps_a_session_going(d: MuxDriver, event: DriverEvent)
    ensures
        d.reaction(DriverEvent::Connected) == DriverAction::StartHelper,
        d.reaction(DriverEvent::HelperStarted) == (DriverAction::RunSession { again: d.started }),
        d.reaction(DriverEvent::HelperFailed) == (DriverAction::ReportBroken {
            pause_millis: 500,
        }),
        d.reaction(DriverEvent::Ended(SessionOutcome::ChannelLost)) == (DriverAction::ReportBroken {
            pause_millis: 0,
        }),
        d.reaction(event) == DriverAction::Stop <==> event is Closed || event
            == DriverEvent::Ended(SessionOutcome::Shutdown),
{
}

/// A request for a stream is told what the driver answered, and else why there
/// was no answer.
pub proof fn law_requests_are_told_the_answer(r: Result<(), DialError>)
    ensures
        dialed(DialReply::Answered(r)) == r,
        dialed(DialReply::DriverGone) == Err::<(), DialError>(DialError::Internal),
        dialed(DialReply::TimedOut) == Err::<(), DialError>(DialError::TimedOut),
{
}

/// The pump passes on every byte as it is, in both directions and whatever has
/// ended before, and the end of either side once it comes. A local side that
/// fails closes the stream, and a stream that is over ends the pump.
pub proof fn law_the_pump_passes_everything_on(p: LocalPump, data: Seq<u8>)
    ensures
        data.len() > 0 ==> p.reaction(PumpEventView::LocalRead(data)) == PumpActionView::Command(
            CommandView::LocalData { stream_id: p.stream_id, data },
        ),
        p.reaction(PumpEventView::LocalRead(seq![])) == PumpActionView::Command(
            CommandView::LocalEof { stream_id: p.stream_id },
        ),
        p.reaction(PumpEventView::Inbound(data)) == PumpActionView::Write(data),
        p.reaction(PumpEventView::RemoteFin) == PumpActionView::Shutdown,
        p.reaction(PumpEventView::LocalReadFailed) == PumpActionView::CommandAndStop(
            CommandView::LocalClose { stream_id: p.stream_id },
        ),
        p.reaction(PumpEventView::LocalWriteFailed) == PumpActionView::CommandAndStop(
            CommandView::LocalClose { stream_id: p.stream_id },
        ),
        p.reaction(PumpEventView::Terminated) == PumpActionView::ShutdownAndStop,
        p.reaction(PumpEventView::InboundClosed) == PumpActionView::ShutdownAndStop,
        p.reaction(PumpEventView::SessionGone) == PumpActionView::Stop,
{
}

} // verus!
