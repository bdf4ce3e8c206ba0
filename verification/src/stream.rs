//! A stream on the helper's side: what goes from the target to the client,
//! what comes from the client to the target, and how the two end.

use bytes::Bytes;
use vstd::prelude::*;

use crate::buf::content;
use crate::frame::FrameView;
use crate::resume::SendView;
use crate::{Frame, ResetCode, SendBuffer, StreamId, DATA_CHUNK};

verus! {

/// How many delivered bytes are acknowledged at once.
pub const ACK_BYTES: u64 = 64 * 1024;

/// How long a smaller number of delivered bytes waits to be acknowledged.
pub const ACK_DELAY_MILLIS: u64 = 100;

/// What the session hands to the stream for its target.
#[derive(Debug, PartialEq, Eq)]
pub enum Downlink {
    /// New data, in order; once it is written, `delivered` bytes are.
    Data { bytes: Bytes, delivered: u64 },
    /// Data that was there before: only the acknowledgement is repeated.
    Duplicate { delivered: u64 },
    /// The client has stopped writing.
    Fin,
}

/// What an item for the target stands for.
#[verifier::ext_equal]
pub enum DownlinkView {
    Data { bytes: Seq<u8>, delivered: u64 },
    Duplicate { delivered: u64 },
    Fin,
}

impl View for Downlink {
    type V = DownlinkView;

    open spec fn view(&self) -> DownlinkView {
        match self {
            Downlink::Data { bytes, delivered } => DownlinkView::Data {
                bytes: content(*bytes),
                delivered: *delivered,
            },
            Downlink::Duplicate { delivered } => DownlinkView::Duplicate { delivered: *delivered },
            Downlink::Fin => DownlinkView::Fin,
        }
    }
}

/// What the stream reports to its session.
#[derive(Debug, Clone, Copy, PartialEq, Eq)]
pub enum StreamEvent {
    /// The target has ended, the client was told, and it has acknowledged
    /// everything.
    EgressDone(StreamId),
    /// The stream failed. The client still has to be told where there is a
    /// code.
    Failed { stream_id: StreamId, reset: Option<ResetCode> },
}

/// Why a direction of a stream has halted.
#[derive(Debug, Clone, Copy, PartialEq, Eq, Structural)]
pub enum Halt {
    /// The session is gone.
    Closed,
    /// The target's socket failed.
    Io,
    /// More was read than the window had room for.
    Internal,
}

/// The direction from the target to the client.
#[derive(Debug)]
pub struct Uplink {
    pub stream_id: StreamId,
    /// The target has ended.
    pub eof: bool,
    /// The client was told so.
    pub fin_sent: bool,
}

/// What the direction to the client does next.
#[derive(Debug)]
pub enum UplinkStep {
    /// Send the frame and go on.
    Send(Frame),
    /// Read at most that many bytes from the target.
    Read(usize),
    /// Wait until the client has acknowledged or resumed.
    Wait,
    /// Everything has arrived.
    Done,
}

/// What such a step stands for.
#[verifier::ext_equal]
pub enum UplinkStepView {
    Send(FrameView),
    Read(nat),
    Wait,
    Done,
}

impl View for UplinkStep {
    type V = UplinkStepView;

    open spec fn view(&self) -> UplinkStepView {
        match self {
            UplinkStep::Send(f) => UplinkStepView::Send(f@),
            UplinkStep::Read(n) => UplinkStepView::Read(*n as nat),
            UplinkStep::Wait => UplinkStepView::Wait,
            UplinkStep::Done => UplinkStepView::Done,
        }
    }
}

impl Uplink {
    /// The direction of a new stream.
    pub fn new(stream_id: StreamId) -> (r: Uplink)
        ensures
            r.stream_id == stream_id,
            !r.eof,
            !r.fin_sent,
    {
        Uplink { stream_id, eof: false, fin_sent: false }
    }

    /// What comes next: first everything that is to be sent, also again after
    /// a resume; then the end, once the target has ended; else more from the
    /// target, as far as the window has room.
    pub open spec fn next(self, tx: SendView) -> UplinkStepView {
        if tx.cursor < tx.end() {
            UplinkStepView::Send(
                FrameView::Data {
                    stream_id: self.stream_id,
                    offset: tx.cursor as u64,
                    data: tx.unsent(DATA_CHUNK as nat),
                },
            )
        } else if self.eof && !self.fin_sent {
            UplinkStepView::Send(FrameView::Fin { stream_id: self.stream_id })
        } else if self.eof && tx.unacked.len() == 0 {
            UplinkStepView::Done
        } else if self.eof || tx.writable() == 0 {
            UplinkStepView::Wait
        } else if tx.writable() < DATA_CHUNK {
            UplinkStepView::Read(tx.writable())
        } else {
            UplinkStepView::Read(DATA_CHUNK as nat)
        }
    }

    /// Decides the next step.
    pub fn step(&mut self, buf: &mut SendBuffer) -> (r: UplinkStep)
        requires
            old(buf).wf(),
        ensures
            final(buf).wf(),
            r@ == old(self).next(old(buf)@),
            final(buf)@ == old(buf)@.advanced(DATA_CHUNK as nat),
            final(self).stream_id == old(self).stream_id,
            final(self).eof == old(self).eof,
            final(self).fin_sent == (old(self).fin_sent || r@ == UplinkStepView::Send(
                FrameView::Fin { stream_id: old(self).stream_id },
            )),
    {
        match buf.next_unsent(DATA_CHUNK) {
            Some((offset, data)) => {
                return UplinkStep::Send(Frame::Data { stream_id: self.stream_id, offset, data });
            },
            None => {},
        }
        if self.eof {
            if !self.fin_sent {
                self.fin_sent = true;
                return UplinkStep::Send(Frame::Fin { stream_id: self.stream_id });
            }
            if buf.is_fully_acked() {
                return UplinkStep::Done;
            }
            return UplinkStep::Wait;
        }
        let writable: u64 = buf.writable();
        if writable == 0 {
            return UplinkStep::Wait;
        }
        if writable < DATA_CHUNK as u64 {
            UplinkStep::Read(writable as usize)
        } else {
            UplinkStep::Read(DATA_CHUNK)
        }
    }

    /// Takes what was read from the target; no bytes mean its end.
    pub fn on_read(&mut self, data: &[u8], buf: &mut SendBuffer) -> (r: Result<(), Halt>)
        requires
            old(buf).wf(),
            old(buf)@.end() + old(buf)@.accepts(data@.len()) <= u64::MAX,
        ensures
            final(buf).wf(),
            final(self).stream_id == old(self).stream_id,
            final(self).fin_sent == old(self).fin_sent,
            final(self).eof == (old(self).eof || data@.len() == 0),
            if data@.len() == 0 {
                r is Ok && final(buf)@ == (SendView { fin_queued: true, ..old(buf)@ })
            } else {
                &&& r == (if data@.len() <= old(buf)@.writable() {
                    Ok::<(), Halt>(())
                } else {
                    Err::<(), Halt>(Halt::Internal)
                })
                &&& final(buf)@ == old(buf)@.pushed(data@)
            },
    {
        if data.len() == 0 {
            self.eof = true;
            buf.mark_fin();
            return Ok(());
        }
        let pushed: usize = buf.push(data);
        if pushed != data.len() {
            return Err(Halt::Internal);
        }
        Ok(())
    }
}

/// The stream reads no more from its target than its window has room for, so
/// that every byte it reads is kept.
pub proof fn law_reads_fit_the_window(u: Uplink, tx: SendView, data: Seq<u8>)
    requires
        tx.valid(),
        u.next(tx) matches UplinkStepView::Read(n) && data.len() <= n,
    ensures
        data.len() <= tx.writable(),
        tx.pushed(data).unacked == tx.unacked + data,
{
    assert(data.take(data.len() as int) =~= data);
}

/// A full window stops the reading.
pub proof fn law_full_window_stops_reading(u: Uplink, tx: SendView)
    requires
        tx.writable() == 0,
    ensures
        !(u.next(tx) is Read),
{
}

/// The stream is done only when the client has acknowledged every byte.
pub proof fn law_done_means_everything_acked(u: Uplink, tx: SendView)
    requires
        tx.valid(),
        u.next(tx) is Done,
    ensures
        tx.acked == tx.end(),
        u.eof && u.fin_sent,
{
}

/// The direction from the client to the target, as far as acknowledgements go.
#[derive(Debug)]
pub struct AckBatch {
    pub stream_id: StreamId,
    /// How many written bytes are not acknowledged.
    pub pending: u64,
    /// How many bytes were delivered.
    pub delivered: u64,
}

/// What is to be done after an item for the target was dealt with.
#[derive(Debug, Clone, Copy, PartialEq, Eq, Structural)]
pub enum AckStep {
    /// Nothing.
    Nothing,
    /// Acknowledge the pending bytes within the delay.
    StartTimer,
    /// Acknowledge that many bytes now.
    Ack { offset: u64 },
}

impl AckBatch {
    pub open spec fn wf(self) -> bool {
        self.pending < ACK_BYTES
    }

    /// The batch after `len` more bytes were written, `delivered` in all.
    pub open spec fn grown(self, len: nat, delivered: u64) -> AckBatch {
        AckBatch {
            pending: if self.pending + len >= ACK_BYTES {
                0
            } else {
                (self.pending + len) as u64
            },
            delivered,
            ..self
        }
    }

    /// What is to be done after `len` more bytes were written, `delivered` in
    /// all.
    pub open spec fn due(self, len: nat, delivered: u64) -> AckStep {
        if self.pending + len >= ACK_BYTES {
            AckStep::Ack { offset: delivered }
        } else if self.pending == 0 {
            AckStep::StartTimer
        } else {
            AckStep::Nothing
        }
    }

    /// What is to be done when the delay is over.
    pub open spec fn overdue(self) -> AckStep {
        if self.pending > 0 {
            AckStep::Ack { offset: self.delivered }
        } else {
            AckStep::Nothing
        }
    }

    /// The acknowledgements of a new stream.
    pub fn new(stream_id: StreamId) -> (r: AckBatch)
        ensures
            r.wf(),
            r == (AckBatch { stream_id, pending: 0, delivered: 0 }),
    {
        AckBatch { stream_id, pending: 0, delivered: 0 }
    }

    /// Data of `len` bytes was written to the target.
    pub fn written(&mut self, len: usize, delivered: u64) -> (r: AckStep)
        requires
            old(self).wf(),
            old(self).pending + len <= u64::MAX,
        ensures
            final(self).wf(),
            *final(self) == old(self).grown(len as nat, delivered),
            r == old(self).due(len as nat, delivered),
    {
        let first: bool = self.pending == 0;
        self.pending = self.pending + len as u64;
        self.delivered = delivered;
        if self.pending >= ACK_BYTES {
            self.pending = 0;
            return AckStep::Ack { offset: delivered };
        }
        if first {
            AckStep::StartTimer
        } else {
            AckStep::Nothing
        }
    }

    /// Data came that was there before: the acknowledgement is repeated.
    pub fn duplicate(&mut self, delivered: u64) -> (r: AckStep)
        ensures
            final(self).wf(),
            *final(self) == (AckBatch { stream_id: old(self).stream_id, pending: 0, delivered }),
            r == (AckStep::Ack { offset: delivered }),
    {
        self.delivered = delivered;
        self.pending = 0;
        AckStep::Ack { offset: delivered }
    }

    /// The delay is over, or nothing more will come: what is pending is
    /// acknowledged.
    pub fn flush(&mut self) -> (r: AckStep)
        ensures
            final(self).wf(),
            *final(self) == (AckBatch { pending: 0, ..*old(self) }),
            r == old(self).overdue(),
    {
        if self.pending > 0 {
            self.pending = 0;
            AckStep::Ack { offset: self.delivered }
        } else {
            AckStep::Nothing
        }
    }
}

/// How far a stream has got: it is over when both directions are.
#[derive(Debug, Clone, Copy, PartialEq, Eq, Structural)]
pub struct StreamRun {
    pub stream_id: StreamId,
    pub up_done: bool,
    pub down_done: bool,
}

/// What is to be done when a direction has ended.
#[derive(Debug, Clone, Copy, PartialEq, Eq)]
pub enum RunStep {
    /// Report the event, if there is one, and go on while a direction runs.
    Report(Option<StreamEvent>),
    /// Report the event and stop at once.
    Fail(StreamEvent),
    /// Stop at once, in silence.
    Quit,
}

impl StreamRun {
    /// A stream whose target was connected.
    pub fn new(stream_id: StreamId) -> (r: StreamRun)
        ensures
            r == (StreamRun { stream_id, up_done: false, down_done: false }),
    {
        StreamRun { stream_id, up_done: false, down_done: false }
    }

    /// Whether both directions are done.
    pub fn is_over(&self) -> (r: bool)
        ensures
            r == (self.up_done && self.down_done),
    {
        self.up_done && self.down_done
    }

    /// What the end of a direction calls for.
    pub open spec fn reaction(
        self,
        ended: Result<(), Halt>,
        report: Option<StreamEvent>,
    ) -> RunStep {
        match ended {
            Ok(_) => RunStep::Report(report),
            Err(Halt::Closed) => RunStep::Quit,
            Err(_) => RunStep::Fail(
                StreamEvent::Failed {
                    stream_id: self.stream_id,
                    reset: Some(ResetCode::Internal),
                },
            ),
        }
    }

    /// The direction to the client has ended.
    pub fn uplink_ended(&mut self, ended: Result<(), Halt>) -> (r: RunStep)
        ensures
            *final(self) == (StreamRun { up_done: true, ..*old(self) }),
            r == old(self).reaction(ended, Some(StreamEvent::EgressDone(old(self).stream_id))),
    {
        self.up_done = true;
        match ended {
            Ok(()) => RunStep::Report(Some(StreamEvent::EgressDone(self.stream_id))),
            Err(Halt::Closed) => RunStep::Quit,
            Err(_) => RunStep::Fail(
                StreamEvent::Failed {
                    stream_id: self.stream_id,
                    reset: Some(ResetCode::Internal),
                },
            ),
        }
    }

    /// The direction to the target has ended.
    pub fn downlink_ended(&mut self, ended: Result<(), Halt>) -> (r: RunStep)
        ensures
            *final(self) == (StreamRun { down_done: true, ..*old(self) }),
            r == old(self).reaction(ended, None),
    {
        self.down_done = true;
        match ended {
            Ok(()) => RunStep::Report(None),
            Err(Halt::Closed) => RunStep::Quit,
            Err(_) => RunStep::Fail(
                StreamEvent::Failed {
                    stream_id: self.stream_id,
                    reset: Some(ResetCode::Internal),
                },
            ),
        }
    }
}

/// What the client and the session are told of the connection to the target.
pub fn connect_outcome(stream_id: StreamId, connected: Result<(), String>) -> (r: (
    Frame,
    Option<StreamEvent>,
))
    ensures
        match connected {
            Ok(_) => r.0@ == (FrameView::OpenOk { stream_id }) && r.1 is None,
            Err(msg) => r.0@ == (FrameView::OpenErr {
                stream_id,
                code: ResetCode::ConnectFailed,
                msg: msg@,
            }) && r.1 == Some(StreamEvent::Failed { stream_id, reset: None }),
        },
{
    match connected {
        Ok(()) => (Frame::OpenOk { stream_id }, None),
        Err(msg) => (
            Frame::OpenErr { stream_id, code: ResetCode::ConnectFailed, msg },
            Some(StreamEvent::Failed { stream_id, reset: None }),
        ),
    }
}

/// What is held and was not sent goes first, the next bytes of it as one frame
/// at their offset, whatever else is to be done.
pub proof fn law_unsent_data_goes_first(u: Uplink, tx: SendView)
    requires
        tx.valid(),
        tx.cursor < tx.acked + tx.unacked.len(),
    ensures
        ({
            let left = tx.unacked.skip(tx.cursor - tx.acked);
            let n = if left.len() < 32768 {
                left.len() as int
            } else {
                32768int
            };
            u.next(tx) == UplinkStepView::Send(
                FrameView::Data {
                    stream_id: u.stream_id,
                    offset: tx.cursor as u64,
                    data: left.take(n),
                },
            )
        }),
{
    let left = tx.unacked.skip(tx.cursor - tx.acked);
    let n = if left.len() < DATA_CHUNK {
        left.len() as int
    } else {
        DATA_CHUNK as int
    };
    assert(tx.unsent(DATA_CHUNK as nat) =~= left.take(n));
}

/// When everything was sent: an ended target is announced once, waited for
/// until all is acknowledged, and then done with. A target that goes on is read
/// as soon as there is room, as much as fits and no more than one frame.
pub proof fn law_what_follows_the_data(u: Uplink, tx: SendView)
    requires
        tx.valid(),
        tx.cursor == tx.acked + tx.unacked.len(),
    ensures
        ({
            let room = tx.capacity - tx.unacked.len();
            &&& u.eof && !u.fin_sent ==> u.next(tx) == UplinkStepView::Send(
                FrameView::Fin { stream_id: u.stream_id },
            )
            &&& u.eof && u.fin_sent && tx.unacked.len() == 0 ==> u.next(tx) == UplinkStepView::Done
            &&& u.eof && u.fin_sent && tx.unacked.len() > 0 ==> u.next(tx) == UplinkStepView::Wait
            &&& !u.eof && room == 0 ==> u.next(tx) == UplinkStepView::Wait
            &&& !u.eof && 0 < room <= 32768 ==> u.next(tx) == UplinkStepView::Read(room as nat)
            &&& !u.eof && room > 32768 ==> u.next(tx) == UplinkStepView::Read(
                32768nat,
            )
        }),
{
}

/// A direction that ends in order is reported as said, one whose session is
/// gone ends in silence, and every other end fails the stream and has the client
/// told.
pub proof fn law_ends_of_a_direction(r: StreamRun, halt: Halt, report: Option<StreamEvent>)
    ensures
        r.reaction(Ok(()), report) == RunStep::Report(report),
        r.reaction(Err(Halt::Closed), report) == RunStep::Quit,
        halt != Halt::Closed ==> r.reaction(Err(halt), report) == RunStep::Fail(
            StreamEvent::Failed { stream_id: r.stream_id, reset: Some(ResetCode::Internal) },
        ),
{
}

/// Nothing that was written goes unacknowledged. A write that fills up 64 KiB
/// is acknowledged at once, with all that was delivered, and leaves nothing
/// open; any other write leaves open what was open before and what it wrote.
/// The first write that leaves something open starts the delay, no later one
/// starts it again, and when it is over all that was delivered is acknowledged.
pub proof fn law_written_data_is_acked(b: AckBatch, len: nat, delivered: u64)
    requires
        b.pending < 65536,
        len > 0,
    ensures
        ({
            let after = b.grown(len, delivered);
            let step = b.due(len, delivered);
            &&& after.stream_id == b.stream_id
            &&& after.delivered == delivered
            &&& after.pending < 65536
            &&& step == (AckStep::Ack { offset: delivered }) <==> b.pending + len >= 65536
            &&& step is Ack ==> after.pending == 0 && after.overdue() == AckStep::Nothing
            &&& !(step is Ack) ==> after.pending == b.pending + len && after.overdue() == (
            AckStep::Ack { offset: delivered })
            &&& step == AckStep::StartTimer <==> b.overdue() == AckStep::Nothing && !(step is Ack)
        }),
{
}

/// It makes no difference whether data is written in one piece or in two, as
/// long as the first does not call for an acknowledgement by itself.
pub proof fn law_pieces_add_up(b: AckBatch, one: nat, two: nat, first: u64, delivered: u64)
    requires
        !(b.due(one, first) is Ack),
    ensures
        b.grown(one, first).grown(two, delivered) == b.grown(one + two, delivered),
        b.grown(one, first).due(two, delivered) is Ack <==> b.due(one + two, delivered) is Ack,
{
}

} // verus!
