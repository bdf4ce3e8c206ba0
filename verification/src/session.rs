//! The client's helper session: what it does with the frames of the helper,
//! with the commands of the local side, and with those that come while there
//! is no connection.
//!
//! Nothing here reads or writes. Every function says what is to be done, as a
//! list of actions in order.

use bytes::{Bytes, BytesMut};
use vstd::prelude::*;

use crate::addr::AddrView;
use crate::buf::{buffered, content, view_content};
use crate::frame::{decode_consumed, decode_result, frame_views, FrameView};
use crate::frontend::DialError;
use crate::mux::{
    after_data_frames, apply_frame, carried_bytes, contiguous, data_frames, drain_stream_output,
    effect_views, law_output_is_contiguous, law_resume_resends_exactly_the_gap, resume_request,
    resume_requests, EffectView, FrameEffect, MuxState, MuxView, StreamView,
};
use crate::resume::SendView;
use crate::{
    Frame, ResetCode, SessionId, StreamId, TargetAddr, DATA_CHUNK, MAX_FRAME_PAYLOAD,
    PROTO_VERSION,
};

verus! {

/// How many data frames are taken from a stream after a command.
pub const DRAIN_FRAMES: usize = 64;

/// What the local side asks of the session. A request to open a stream bears
/// a number by which the asking side is found again.
#[derive(Debug)]
pub enum MuxCommand {
    /// Open a stream.
    Open { addr: TargetAddr, request: u64 },
    /// A stream's local side has written.
    LocalData { stream_id: StreamId, data: Bytes },
    /// A stream's local side has stopped writing.
    LocalEof { stream_id: StreamId },
    /// A stream's local side is gone.
    LocalClose { stream_id: StreamId },
}

/// A request to open a stream that waits for a connection.
#[derive(Debug)]
pub struct PendingOpen {
    pub addr: TargetAddr,
    pub request: u64,
}

/// What is to be done.
#[derive(Debug, PartialEq, Eq)]
pub enum SessionAction {
    /// Send the frame to the helper.
    Send(Frame),
    /// Hand the bytes to the stream's local side.
    Deliver { stream_id: StreamId, data: Bytes },
    /// Let the local side see the end of its input.
    ShutWrite { stream_id: StreamId },
    /// Tell the local side that its stream is over, and forget it.
    Terminate { stream_id: StreamId, code: ResetCode },
    /// Forget the stream's local side.
    Forget { stream_id: StreamId },
    /// The request was given this stream; it may start to write.
    Opened { request: u64, stream_id: StreamId },
    /// The request was refused.
    Refused { request: u64, error: DialError },
}

/// What an action stands for.
#[verifier::ext_equal]
pub enum ActionView {
    Send(FrameView),
    Deliver { stream_id: u32, data: Seq<u8> },
    ShutWrite { stream_id: u32 },
    Terminate { stream_id: u32, code: ResetCode },
    Forget { stream_id: u32 },
    Opened { request: u64, stream_id: u32 },
    Refused { request: u64, error: DialError },
}

impl View for SessionAction {
    type V = ActionView;

    open spec fn view(&self) -> ActionView {
        match self {
            SessionAction::Send(f) => ActionView::Send(f@),
            SessionAction::Deliver { stream_id, data } => ActionView::Deliver {
                stream_id: *stream_id,
                data: content(*data),
            },
            SessionAction::ShutWrite { stream_id } => ActionView::ShutWrite {
                stream_id: *stream_id,
            },
            SessionAction::Terminate { stream_id, code } => ActionView::Terminate {
                stream_id: *stream_id,
                code: *code,
            },
            SessionAction::Forget { stream_id } => ActionView::Forget { stream_id: *stream_id },
            SessionAction::Opened { request, stream_id } => ActionView::Opened {
                request: *request,
                stream_id: *stream_id,
            },
            SessionAction::Refused { request, error } => ActionView::Refused {
                request: *request,
                error: *error,
            },
        }
    }
}

/// What several actions stand for.
pub open spec fn action_views(actions: Seq<SessionAction>) -> Seq<ActionView> {
    actions.map_values(|a: SessionAction| a@)
}

/// Sending several frames.
pub open spec fn sends(frames: Seq<FrameView>) -> Seq<ActionView> {
    frames.map_values(|f: FrameView| ActionView::Send(f))
}

/// Ending several streams.
pub open spec fn terminations(ids: Seq<u32>, code: ResetCode) -> Seq<ActionView> {
    ids.map_values(|id: u32| ActionView::Terminate { stream_id: id, code })
}

fn push_sends(out: &mut Vec<SessionAction>, frames: Vec<Frame>)
    ensures
        action_views(final(out)@) == action_views(old(out)@) + sends(frame_views(frames@)),
{
    let ghost before = action_views(out@);
    let ghost all = frame_views(frames@);
    for f in it: frames
        invariant
            all == frame_views(it.seq()),
            action_views(out@) == before + sends(all.take(it.index() as int)),
    {
        let ghost v = f@;
        let ghost now = action_views(out@);
        proof {
            assert(all[it.index() as int] == v);
            assert(sends(all.take(it.index() + 1)) =~= sends(all.take(it.index() as int)).push(
                ActionView::Send(v),
            ));
        }
        out.push(SessionAction::Send(f));
        assert(action_views(out@) =~= now.push(ActionView::Send(v)));
        assert(action_views(out@) =~= before + sends(all.take(it.index() + 1)));
    }
    assert(all.take(all.len() as int) =~= all);
}

/// Whether the actions end every stream of `m`, each once.
pub open spec fn ends_all(m: MuxView, code: ResetCode, actions: Seq<ActionView>) -> bool {
    exists|ids: Seq<u32>|
        ids.no_duplicates() && #[trigger] ids.to_set() == m.streams.dom() && actions
            == terminations(ids, code)
}

/// Ends all streams and tells their local sides, in no particular order.
pub fn terminate_all(state: &mut MuxState, code: ResetCode) -> (r: Vec<SessionAction>)
    requires
        old(state).wf(),
    ensures
        final(state).wf(),
        final(state)@ == (MuxView { streams: Map::empty(), ..old(state)@ }),
        ends_all(old(state)@, code, action_views(r@)),
{
    let ids = state.stream_ids();
    let mut out: Vec<SessionAction> = Vec::new();
    let mut i: usize = 0;
    assert(action_views(out@) =~= terminations(ids@.take(0), code));
    while i < ids.len()
        invariant
            state.wf(),
            i <= ids@.len(),
            state@ == (MuxView { streams: state@.streams, ..old(state)@ }),
            forall|id: u32| #[trigger]
                state@.streams.contains_key(id) ==> ids@.to_set().contains(id)
                    && !ids@.take(i as int).contains(id),
            action_views(out@) == terminations(ids@.take(i as int), code),
        decreases ids@.len() - i,
    {
        let id: u32 = ids[i];
        let ghost before = action_views(out@);
        state.remove(id);
        out.push(SessionAction::Terminate { stream_id: id, code });
        proof {
            let now = ids@.take(i + 1);
            assert(now =~= ids@.take(i as int).push(id));
            assert(terminations(now, code) =~= before.push(
                ActionView::Terminate { stream_id: id, code },
            ));
            assert(action_views(out@) =~= terminations(now, code));
            assert forall|k: u32| #[trigger] state@.streams.contains_key(k) implies
                ids@.to_set().contains(k) && !now.contains(k) by {
                if now.contains(k) {
                    let j = choose|j: int| 0 <= j < now.len() && now[j] == k;
                    if j < i {
                        assert(ids@.take(i as int)[j] == k);
                    }
                }
            }
        }
        i = i + 1;
    }
    proof {
        assert(ids@.take(i as int) =~= ids@);
        assert forall|k: u32| !state@.streams.contains_key(k) by {
            if state@.streams.contains_key(k) {
                assert(ids@.to_set().contains(k));
            }
        }
        assert(state@.streams =~= Map::empty());
    }
    out
}

/// The streams after the effect of a frame was carried out.
pub open spec fn carried_out(m: MuxView, e: EffectView) -> MuxView {
    match e {
        EffectView::Terminate { stream_id, .. } => m.without(stream_id),
        EffectView::Resumed { stream_id, .. } => m.drained(stream_id, usize::MAX as nat),
        _ => m,
    }
}

/// What carrying out the effect of a frame takes. A stream that goes on sends
/// everything that the helper lacks.
pub open spec fn actions_for(m: MuxView, e: EffectView) -> Seq<ActionView> {
    match e {
        EffectView::Nothing => seq![],
        EffectView::Reply(frames) => sends(frames),
        EffectView::Deliver { stream_id, data } => seq![ActionView::Deliver { stream_id, data }],
        EffectView::RemoteFin { stream_id } => seq![ActionView::ShutWrite { stream_id }],
        EffectView::Terminate { stream_id, code } => seq![
            ActionView::Terminate { stream_id, code },
        ],
        EffectView::Resumed { stream_id, .. } => sends(m.output(stream_id, usize::MAX as nat)),
    }
}

/// The streams after several effects were carried out, one after the other.
pub open spec fn all_carried_out(m: MuxView, es: Seq<EffectView>) -> MuxView
    decreases es.len(),
{
    if es.len() == 0 {
        m
    } else {
        carried_out(all_carried_out(m, es.drop_last()), es.last())
    }
}

/// What carrying out several effects takes.
pub open spec fn all_actions_for(m: MuxView, es: Seq<EffectView>) -> Seq<ActionView>
    decreases es.len(),
{
    if es.len() == 0 {
        seq![]
    } else {
        all_actions_for(m, es.drop_last()) + actions_for(
            all_carried_out(m, es.drop_last()),
            es.last(),
        )
    }
}

/// Turns the effects of a frame into actions.
fn carry_out(effects: Vec<FrameEffect>, state: &mut MuxState) -> (r: Vec<SessionAction>)
    requires
        old(state).wf(),
    ensures
        final(state).wf(),
        final(state)@ == all_carried_out(old(state)@, effect_views(effects@)),
        action_views(r@) == all_actions_for(old(state)@, effect_views(effects@)),
{
    let mut out: Vec<SessionAction> = Vec::new();
    let ghost start = state@;
    let ghost all = effect_views(effects@);
    assert(all.take(0) =~= Seq::<EffectView>::empty());
    for e in it: effects
        invariant
            state.wf(),
            all == effect_views(it.seq()),
            state@ == all_carried_out(start, all.take(it.index() as int)),
            action_views(out@) == all_actions_for(start, all.take(it.index() as int)),
    {
        let ghost v = e@;
        let ghost m = state@;
        let ghost before = action_views(out@);
        proof {
            assert(all[it.index() as int] == v);
            assert(all.take(it.index() + 1).drop_last() =~= all.take(it.index() as int));
        }
        match e {
            FrameEffect::Nothing => {},
            FrameEffect::Reply(frames) => {
                push_sends(&mut out, frames);
            },
            FrameEffect::Deliver { stream_id, data } => {
                out.push(SessionAction::Deliver { stream_id, data });
            },
            FrameEffect::RemoteFin { stream_id } => {
                out.push(SessionAction::ShutWrite { stream_id });
            },
            FrameEffect::Terminate { stream_id, code } => {
                out.push(SessionAction::Terminate { stream_id, code });
                state.remove(stream_id);
            },
            FrameEffect::Resumed { stream_id, gap } => {
                let frames = drain_stream_output(state, stream_id, usize::MAX);
                push_sends(&mut out, frames);
            },
        }
        assert(action_views(out@) =~= before + actions_for(m, v));
        assert(all.take(it.index() + 1).last() == v);
    }
    assert(all.take(all.len() as int) =~= all);
    out
}

/// How far a session on one SSH channel has got.
#[derive(Debug)]
pub struct ClientSession {
    /// Streams of an earlier channel are to go on.
    pub resuming: bool,
    /// The helper has answered the handshake.
    pub handshake_done: bool,
}

/// What the bytes of the helper call for.
#[derive(Debug, PartialEq, Eq)]
pub enum SessionStep {
    /// More bytes.
    Wait,
    /// The actions, and then to go on.
    Continue(Vec<SessionAction>),
    /// The actions, and then to give the channel up.
    Lost(Vec<SessionAction>),
}

/// Whether no frame can carry a stream's byte count beyond 64 bits.
pub open spec fn countable(m: MuxView) -> bool {
    forall|id: u32| #[trigger]
        m.streams.contains_key(id) ==> m.streams[id].rx.delivered + MAX_FRAME_PAYLOAD <= u64::MAX
}

/// Whether the byte counts still fit 64 bits after the frame at the front of
/// some bytes, if there is one.
pub open spec fn countable_next(m: MuxView, s: Seq<u8>) -> bool {
    decode_result(s) matches Ok(Some(f)) ==> m.countable(f)
}

impl ClientSession {
    /// Opens a session on a new channel: the handshake asks to resume where
    /// there are streams.
    pub fn start(state: &MuxState, session_id: SessionId) -> (r: (ClientSession, Frame))
        requires
            state.wf(),
        ensures
            r.0.resuming == (state@.streams.dom().len() > 0),
            !r.0.handshake_done,
            r.1@ == (FrameView::Hello {
                version: PROTO_VERSION,
                session_id: session_id@,
                resume: r.0.resuming,
            }),
    {
        let resuming: bool = !state.is_empty();
        (
            ClientSession { resuming, handshake_done: false },
            Frame::Hello { version: PROTO_VERSION, session_id, resume: resuming },
        )
    }

    /// What a frame of the helper calls for.
    pub open spec fn answers(
        before: ClientSession,
        m: MuxView,
        f: FrameView,
        after: ClientSession,
        n: MuxView,
        step: SessionStep,
    ) -> bool {
        let none = MuxView { streams: Map::empty(), ..m };
        match f {
            // Without a common version nothing can be salvaged.
            FrameView::HelloAck { version, .. } if version != PROTO_VERSION => {
                &&& after == before
                &&& n == none
                &&& step matches SessionStep::Lost(a) && ends_all(
                    m,
                    ResetCode::Internal,
                    action_views(a@),
                )
            },
            FrameView::HelloAck { resumed, .. } => {
                &&& after == (ClientSession { handshake_done: true, ..before })
                &&& if !before.resuming {
                    // Nothing to resume.
                    n == m && (step matches SessionStep::Continue(a) && a@.len() == 0)
                } else if !resumed {
                    // The helper has lost the streams, so they are over.
                    n == none && (step matches SessionStep::Continue(a) && ends_all(
                        m,
                        ResetCode::UnknownStream,
                        action_views(a@),
                    ))
                } else {
                    // Each stream asks for what it lacks.
                    n == m && (step matches SessionStep::Continue(a) && exists|ids: Seq<u32>|
                        ids.no_duplicates() && #[trigger] ids.to_set() == m.streams.dom()
                            && action_views(a@) == sends(resume_requests(m, ids)))
                }
            },
            _ => {
                &&& after == before
                &&& if !before.handshake_done {
                    n == m && (step matches SessionStep::Lost(a) && a@.len() == 0)
                } else {
                    &&& n == all_carried_out(m.applied(f), m.effects(f))
                    &&& step matches SessionStep::Continue(a) && action_views(a@)
                        == all_actions_for(m.applied(f), m.effects(f))
                }
            },
        }
    }

    /// Takes a frame of the helper.
    pub fn on_frame(&mut self, frame: Frame, state: &mut MuxState) -> (r: SessionStep)
        requires
            old(state).wf(),
            old(state)@.countable(frame@),
        ensures
            final(state).wf(),
            ClientSession::answers(
                *old(self),
                old(state)@,
                frame@,
                *final(self),
                final(state)@,
                r,
            ),
    {
        match &frame {
            Frame::HelloAck { version, session_id, resumed } => {
                if *version != PROTO_VERSION {
                    return SessionStep::Lost(terminate_all(state, ResetCode::Internal));
                }
                self.handshake_done = true;
                if self.resuming && !*resumed {
                    return SessionStep::Continue(terminate_all(state, ResetCode::UnknownStream));
                }
                let mut out: Vec<SessionAction> = Vec::new();
                if self.resuming {
                    let frames = state.build_resume_frames();
                    push_sends(&mut out, frames);
                    assert(action_views(out@) =~= sends(frame_views(frames@)));
                }
                return SessionStep::Continue(out);
            },
            _ => {},
        }
        if !self.handshake_done {
            return SessionStep::Lost(Vec::new());
        }
        match apply_frame(state, frame) {
            Ok(effects) => SessionStep::Continue(carry_out(effects, state)),
            Err(_) => SessionStep::Lost(Vec::new()),
        }
    }

    /// Takes the next frame out of the bytes of the helper, and says what it
    /// calls for. The actions are to be done before the next call.
    pub fn poll(&mut self, inbound: &mut BytesMut, state: &mut MuxState) -> (r: SessionStep)
        requires
            old(state).wf(),
            countable_next(old(state)@, buffered(*old(inbound))),
        ensures
            final(state).wf(),
            buffered(*final(inbound)) == buffered(*old(inbound)).skip(
                decode_consumed(buffered(*old(inbound))) as int,
            ),
            match decode_result(buffered(*old(inbound))) {
                Ok(Some(f)) => ClientSession::answers(
                    *old(self),
                    old(state)@,
                    f,
                    *final(self),
                    final(state)@,
                    r,
                ),
                Ok(None) => r == SessionStep::Wait && *final(self) == *old(self) && final(state)@
                    == old(state)@,
                Err(_) => (r matches SessionStep::Lost(a) && a@.len() == 0) && *final(self)
                    == *old(self) && final(state)@ == old(state)@,
            },
    {
        match Frame::decode(inbound) {
            Ok(Some(frame)) => self.on_frame(frame, state),
            Ok(None) => SessionStep::Wait,
            Err(_) => SessionStep::Lost(Vec::new()),
        }
    }
}

/// Where every stream has room for a whole frame, whatever bytes arrive can be
/// counted.
pub proof fn law_room_for_a_frame_suffices(m: MuxView, s: Seq<u8>)
    requires
        countable(m),
    ensures
        countable_next(m, s),
{
}

/// The local side of a stream no longer takes what is delivered to it.
pub fn delivery_failed(stream_id: StreamId, state: &mut MuxState) -> (r: Vec<SessionAction>)
    requires
        old(state).wf(),
    ensures
        final(state).wf(),
        final(state)@ == old(state)@.without(stream_id),
        action_views(r@) == seq![
            ActionView::Forget { stream_id },
            ActionView::Send(FrameView::Reset { stream_id, code: ResetCode::Normal }),
        ],
{
    let mut out: Vec<SessionAction> = Vec::new();
    out.push(SessionAction::Forget { stream_id });
    out.push(SessionAction::Send(Frame::Reset { stream_id, code: ResetCode::Normal }));
    state.remove(stream_id);
    assert(action_views(out@) =~= seq![
        ActionView::Forget { stream_id },
        ActionView::Send(FrameView::Reset { stream_id, code: ResetCode::Normal }),
    ]);
    out
}

/// What a command stands for.
#[verifier::ext_equal]
pub enum CommandView {
    Open { addr: AddrView, request: u64 },
    LocalData { stream_id: u32, data: Seq<u8> },
    LocalEof { stream_id: u32 },
    LocalClose { stream_id: u32 },
}

impl View for MuxCommand {
    type V = CommandView;

    open spec fn view(&self) -> CommandView {
        match self {
            MuxCommand::Open { addr, request } => CommandView::Open {
                addr: addr@,
                request: *request,
            },
            MuxCommand::LocalData { stream_id, data } => CommandView::LocalData {
                stream_id: *stream_id,
                data: content(*data),
            },
            MuxCommand::LocalEof { stream_id } => CommandView::LocalEof { stream_id: *stream_id },
            MuxCommand::LocalClose { stream_id } => CommandView::LocalClose {
                stream_id: *stream_id,
            },
        }
    }
}

/// What a waiting request stands for.
#[verifier::ext_equal]
pub struct PendingView {
    pub addr: AddrView,
    pub request: u64,
}

impl View for PendingOpen {
    type V = PendingView;

    open spec fn view(&self) -> PendingView {
        PendingView { addr: self.addr@, request: self.request }
    }
}

/// What several waiting requests stand for.
pub open spec fn pending_views(pending: Seq<PendingOpen>) -> Seq<PendingView> {
    pending.map_values(|p: PendingOpen| p@)
}

/// What opening a stream takes.
pub open spec fn open_actions(p: PendingView, id: u32) -> Seq<ActionView> {
    seq![
        ActionView::Send(FrameView::Open { stream_id: id, addr: p.addr }),
        ActionView::Opened { request: p.request, stream_id: id },
    ]
}

/// Gives a request its stream. It may write at once: what it writes stays in
/// the stream's buffer until the helper has connected.
pub fn open_stream(p: PendingOpen, state: &mut MuxState) -> (r: (StreamId, Vec<SessionAction>))
    requires
        old(state).wf(),
        old(state)@.streams.dom().len() < u32::MAX,
    ensures
        final(state).wf(),
        old(state)@.allocates(r.0),
        final(state)@ == old(state)@.with_new(r.0, p.addr@),
        action_views(r.1@) == open_actions(p@, r.0),
{
    let ghost view = p@;
    let addr = p.addr;
    let request: u64 = p.request;
    let id: u32 = state.alloc_stream(addr.clone());
    let mut out: Vec<SessionAction> = Vec::new();
    out.push(SessionAction::Send(Frame::Open { stream_id: id, addr }));
    out.push(SessionAction::Opened { request, stream_id: id });
    assert(action_views(out@) =~= open_actions(view, id));
    (id, out)
}

/// Whether a command keeps within the limits of the machine: numbers for
/// streams, and a byte count of 64 bits.
pub open spec fn takes(m: MuxView, cmd: CommandView) -> bool {
    match cmd {
        CommandView::Open { .. } => m.streams.dom().len() < u32::MAX,
        CommandView::LocalData { stream_id, data } => m.streams.contains_key(stream_id) ==> {
            let tx = m.streams[stream_id].tx;
            tx.end() + tx.accepts(data.len()) <= u64::MAX
        },
        _ => true,
    }
}

/// The streams after a write that fits the window of its stream.
pub open spec fn written(m: MuxView, id: u32, data: Seq<u8>) -> MuxView {
    let s = m.streams[id];
    m.with(id, StreamView { tx: s.tx.pushed(data), ..s })
}

/// Whether a write would leave the window of its stream.
pub open spec fn overflows(m: MuxView, id: u32, data: Seq<u8>) -> bool {
    m.streams.contains_key(id) && m.streams[id].tx.accepts(data.len()) < data.len()
}

/// The streams after the local side of one has stopped writing.
pub open spec fn local_ended(m: MuxView, id: u32) -> MuxView {
    if m.streams.contains_key(id) {
        m.with(id, StreamView { local_fin: true, ..m.streams[id] })
    } else {
        m
    }
}

/// What a command comes to while there is a connection.
pub open spec fn commanded(
    m: MuxView,
    cmd: CommandView,
    n: MuxView,
    actions: Seq<ActionView>,
) -> bool {
    let max = DRAIN_FRAMES as nat;
    match cmd {
        CommandView::Open { addr, request } => exists|id: u32|
            {
                &&& #[trigger] m.allocates(id)
                &&& n == m.with_new(id, addr)
                &&& actions == open_actions(PendingView { addr, request }, id)
            },
        CommandView::LocalData { stream_id, data } => if overflows(m, stream_id, data) {
            // Rather no stream than one with a hole.
            n == m.without(stream_id) && actions == seq![
                ActionView::Send(FrameView::Reset { stream_id, code: ResetCode::Internal }),
                ActionView::Forget { stream_id },
            ]
        } else if m.streams.contains_key(stream_id) {
            let w = written(m, stream_id, data);
            n == w.drained(stream_id, max) && actions == sends(w.output(stream_id, max))
        } else {
            n == m && actions == Seq::<ActionView>::empty()
        },
        CommandView::LocalEof { stream_id } => {
            let e = local_ended(m, stream_id);
            n == e.drained(stream_id, max) && actions == sends(e.output(stream_id, max))
        },
        CommandView::LocalClose { stream_id } => n == m.without(stream_id) && actions == (
        if m.streams.contains_key(stream_id) {
            seq![
                ActionView::Forget { stream_id },
                ActionView::Send(FrameView::Reset { stream_id, code: ResetCode::Normal }),
            ]
        } else {
            seq![]
        }),
    }
}

/// Takes a command of the local side while there is a connection.
pub fn handle_command(cmd: MuxCommand, state: &mut MuxState) -> (r: Vec<SessionAction>)
    requires
        old(state).wf(),
        takes(old(state)@, cmd@),
    ensures
        final(state).wf(),
        commanded(old(state)@, cmd@, final(state)@, action_views(r@)),
{
    let ghost m = state@;
    let ghost view = cmd@;
    let mut out: Vec<SessionAction> = Vec::new();
    match cmd {
        MuxCommand::Open { addr, request } => {
            let (id, actions) = open_stream(PendingOpen { addr, request }, state);
            assert(m.allocates(id));
            return actions;
        },
        MuxCommand::LocalData { stream_id, data } => {
            let ghost bytes_written = content(data);
            let mut fits: bool = true;
            match state.get_mut(stream_id) {
                Some(st) => {
                    let n: usize = st.tx.push(view_content(&data));
                    if n < data.len() {
                        st.reset = Some(ResetCode::Internal);
                        fits = false;
                    }
                },
                None => {},
            }
            if !fits {
                out.push(
                    SessionAction::Send(Frame::Reset { stream_id, code: ResetCode::Internal }),
                );
                out.push(SessionAction::Forget { stream_id });
                state.remove(stream_id);
                proof {
                    assert(state@.streams =~= m.without(stream_id).streams);
                    assert(action_views(out@) =~= seq![
                        ActionView::Send(
                            FrameView::Reset { stream_id, code: ResetCode::Internal },
                        ),
                        ActionView::Forget { stream_id },
                    ]);
                }
                return out;
            }
            let ghost w = state@;
            let frames = drain_stream_output(state, stream_id, DRAIN_FRAMES);
            push_sends(&mut out, frames);
            proof {
                assert(action_views(out@) =~= sends(w.output(stream_id, DRAIN_FRAMES as nat)));
                if m.streams.contains_key(stream_id) {
                    assert(w == written(m, stream_id, bytes_written));
                } else {
                    assert(action_views(out@) =~= Seq::<ActionView>::empty());
                }
            }
        },
        MuxCommand::LocalEof { stream_id } => {
            match state.get_mut(stream_id) {
                Some(st) => {
                    st.local_fin = true;
                },
                None => {},
            }
            let ghost e = state@;
            let frames = drain_stream_output(state, stream_id, DRAIN_FRAMES);
            push_sends(&mut out, frames);
            proof {
                assert(e == local_ended(m, stream_id));
                assert(action_views(out@) =~= sends(e.output(stream_id, DRAIN_FRAMES as nat)));
            }
        },
        MuxCommand::LocalClose { stream_id } => {
            if state.remove(stream_id).is_some() {
                out.push(SessionAction::Forget { stream_id });
                out.push(
                    SessionAction::Send(Frame::Reset { stream_id, code: ResetCode::Normal }),
                );
                assert(action_views(out@) =~= seq![
                    ActionView::Forget { stream_id },
                    ActionView::Send(FrameView::Reset { stream_id, code: ResetCode::Normal }),
                ]);
            } else {
                assert(action_views(out@) =~= Seq::<ActionView>::empty());
            }
        },
    }
    out
}

/// The streams after a command that came while there was no connection.
pub open spec fn buffered_offline(m: MuxView, cmd: CommandView) -> MuxView {
    match cmd {
        CommandView::Open { .. } => m,
        CommandView::LocalData { stream_id, data } => if overflows(m, stream_id, data) {
            m.without(stream_id)
        } else if m.streams.contains_key(stream_id) {
            written(m, stream_id, data)
        } else {
            m
        },
        CommandView::LocalEof { stream_id } => local_ended(m, stream_id),
        CommandView::LocalClose { stream_id } => m.without(stream_id),
    }
}

/// What such a command takes.
pub open spec fn offline_actions(m: MuxView, cmd: CommandView) -> Seq<ActionView> {
    match cmd {
        CommandView::Open { request, .. } => seq![
            ActionView::Refused { request, error: DialError::Internal },
        ],
        CommandView::LocalData { stream_id, data } => if overflows(m, stream_id, data) {
            seq![ActionView::Terminate { stream_id, code: ResetCode::Internal }]
        } else {
            seq![]
        },
        CommandView::LocalEof { .. } => seq![],
        CommandView::LocalClose { stream_id } => seq![ActionView::Forget { stream_id }],
    }
}

/// Takes a command while there is no connection. What was written goes into
/// the buffer of its stream and stays to be sent: nothing is sent, so no
/// cursor moves.
pub fn buffer_command_offline(cmd: MuxCommand, state: &mut MuxState) -> (r: Vec<SessionAction>)
    requires
        old(state).wf(),
        takes(old(state)@, cmd@),
    ensures
        final(state).wf(),
        final(state)@ == buffered_offline(old(state)@, cmd@),
        action_views(r@) == offline_actions(old(state)@, cmd@),
{
    let ghost m = state@;
    let ghost view = cmd@;
    let mut out: Vec<SessionAction> = Vec::new();
    match cmd {
        MuxCommand::Open { addr, request } => {
            out.push(SessionAction::Refused { request, error: DialError::Internal });
        },
        MuxCommand::LocalData { stream_id, data } => {
            let mut fits: bool = true;
            match state.get_mut(stream_id) {
                Some(st) => {
                    let n: usize = st.tx.push(view_content(&data));
                    if n < data.len() {
                        st.reset = Some(ResetCode::Internal);
                        fits = false;
                    }
                },
                None => {},
            }
            if !fits {
                out.push(SessionAction::Terminate { stream_id, code: ResetCode::Internal });
                state.remove(stream_id);
            }
        },
        MuxCommand::LocalEof { stream_id } => {
            match state.get_mut(stream_id) {
                Some(st) => {
                    st.local_fin = true;
                },
                None => {},
            }
        },
        MuxCommand::LocalClose { stream_id } => {
            state.remove(stream_id);
            out.push(SessionAction::Forget { stream_id });
        },
    }
    proof {
        assert(state@.streams =~= buffered_offline(m, view).streams);
        assert(action_views(out@) =~= offline_actions(m, view));
    }
    out
}

/// Takes a command while there is no connection, and lets requests to open a
/// stream wait for one.
pub fn queue_command_offline(
    cmd: MuxCommand,
    state: &mut MuxState,
    pending: &mut Vec<PendingOpen>,
) -> (r: Vec<SessionAction>)
    requires
        old(state).wf(),
        cmd@ is Open || takes(old(state)@, cmd@),
    ensures
        final(state).wf(),
        final(state)@ == buffered_offline(old(state)@, cmd@),
        match cmd@ {
            CommandView::Open { addr, request } => pending_views(final(pending)@) == pending_views(
                old(pending)@,
            ).push(PendingView { addr, request }) && r@.len() == 0,
            _ => final(pending)@ == old(pending)@ && action_views(r@) == offline_actions(
                old(state)@,
                cmd@,
            ),
        },
{
    match cmd {
        MuxCommand::Open { addr, request } => {
            let p = PendingOpen { addr, request };
            let ghost view = p@;
            let ghost before = pending_views(pending@);
            pending.push(p);
            assert(pending_views(pending@) =~= before.push(view));
            Vec::new()
        },
        other => buffer_command_offline(other, state),
    }
}

/// The streams after several requests were given theirs.
pub open spec fn all_opened(m: MuxView, reqs: Seq<PendingView>, ids: Seq<u32>) -> MuxView
    decreases reqs.len(),
{
    if reqs.len() == 0 {
        m
    } else {
        all_opened(m, reqs.drop_last(), ids.drop_last()).with_new(ids.last(), reqs.last().addr)
    }
}

/// Whether these are the numbers that the requests get, one after the other.
pub open spec fn all_allocate(m: MuxView, reqs: Seq<PendingView>, ids: Seq<u32>) -> bool
    decreases reqs.len(),
{
    ids.len() == reqs.len() && (reqs.len() > 0 ==> all_allocate(
        m,
        reqs.drop_last(),
        ids.drop_last(),
    ) && all_opened(m, reqs.drop_last(), ids.drop_last()).allocates(ids.last()))
}

/// What giving the requests their streams takes.
pub open spec fn all_open_actions(reqs: Seq<PendingView>, ids: Seq<u32>) -> Seq<ActionView>
    decreases reqs.len(),
{
    if reqs.len() == 0 {
        seq![]
    } else {
        all_open_actions(reqs.drop_last(), ids.drop_last()) + open_actions(reqs.last(), ids.last())
    }
}

/// Opening streams for several requests adds at most as many streams.
proof fn lemma_all_opened_len(m: MuxView, reqs: Seq<PendingView>, ids: Seq<u32>)
    requires
        m.streams.dom().finite(),
        ids.len() == reqs.len(),
    ensures
        all_opened(m, reqs, ids).streams.dom().finite(),
        all_opened(m, reqs, ids).streams.dom().len() <= m.streams.dom().len() + reqs.len(),
    decreases reqs.len(),
{
    if reqs.len() > 0 {
        lemma_all_opened_len(m, reqs.drop_last(), ids.drop_last());
    }
}

impl ClientSession {
    /// Gives the waiting requests their streams, in the order in which they
    /// came, once the helper has answered the handshake.
    pub fn release_pending(&self, pending: &mut Vec<PendingOpen>, state: &mut MuxState) -> (r: Vec<
        SessionAction,
    >)
        requires
            old(state).wf(),
            old(state)@.streams.dom().len() + old(pending)@.len() <= u32::MAX,
        ensures
            final(state).wf(),
            self.handshake_done ==> final(pending)@.len() == 0 && exists|ids: Seq<u32>|
                {
                    &&& #[trigger] all_allocate(old(state)@, pending_views(old(pending)@), ids)
                    &&& final(state)@ == all_opened(
                        old(state)@,
                        pending_views(old(pending)@),
                        ids,
                    )
                    &&& action_views(r@) == all_open_actions(pending_views(old(pending)@), ids)
                },
            !self.handshake_done ==> final(pending)@ == old(pending)@ && final(state)@ == old(
                state,
            )@ && r@.len() == 0,
    {
        let mut out: Vec<SessionAction> = Vec::new();
        if !self.handshake_done {
            return out;
        }
        let ghost m = state@;
        let mut waiting: Vec<PendingOpen> = Vec::new();
        waiting.append(pending);
        let ghost reqs = pending_views(waiting@);
        let ghost mut ids: Seq<u32> = seq![];
        assert(waiting@ =~= old(pending)@);
        assert(reqs.take(0) =~= Seq::<PendingView>::empty());
        proof {
            assert(m.streams.dom() =~= state.table().dom());
        }
        for p in it: waiting
            invariant
                state.wf(),
                m.streams.dom().finite(),
                m.streams.dom().len() + reqs.len() <= u32::MAX,
                reqs == pending_views(it.seq()),
                ids.len() == it.index(),
                all_allocate(m, reqs.take(it.index() as int), ids),
                state@ == all_opened(m, reqs.take(it.index() as int), ids),
                action_views(out@) == all_open_actions(reqs.take(it.index() as int), ids),
        {
            let ghost before = action_views(out@);
            let ghost view = p@;
            let ghost done = reqs.take(it.index() as int);
            let ghost now = reqs.take(it.index() + 1);
            proof {
                assert(reqs[it.index() as int] == view);
                assert(now.drop_last() =~= done);
                lemma_all_opened_len(m, done, ids);
            }
            let (id, mut actions) = open_stream(p, state);
            let ghost added = action_views(actions@);
            proof {
                let more = ids.push(id);
                assert(more.drop_last() =~= ids);
                ids = more;
            }
            let ghost listed = actions@;
            out.append(&mut actions);
            assert(action_views(out@) =~= before + action_views(listed));
        }
        proof {
            assert(reqs.take(reqs.len() as int) =~= reqs);
            assert(all_allocate(m, reqs, ids));
        }
        out
    }
}

/// A stream that the helper resumes is sent on from where the helper stands:
/// every byte that the helper lacks, in order and without a hole, and then the
/// end of the stream if that is still to be announced. Nothing that is held
/// waits for a further write. More than memory can hold is left out.
pub proof fn law_resumed_stream_sends_the_whole_gap(m: MuxView, id: u32, recv_offset: u64)
    requires
        m.streams.contains_key(id),
        m.streams[id].tx.valid(),
        m.streams[id].tx.acked <= recv_offset <= m.streams[id].tx.end(),
        m.streams[id].tx.unacked.len() <= usize::MAX,
    ensures
        ({
            let f = FrameView::ResumeOk { stream_id: id, recv_offset };
            let tx = m.streams[id].tx;
            let all = usize::MAX as nat;
            let sent = data_frames(m.applied(f).streams[id].tx, id, all);
            let after = all_carried_out(m.applied(f), m.effects(f)).streams[id];
            &&& carried_bytes(sent) == tx.unacked.skip(recv_offset - tx.acked)
            &&& contiguous(sent, id, recv_offset as nat)
            &&& all_actions_for(m.applied(f), m.effects(f)) == sends(
                sent + (if m.streams[id].local_fin && !tx.fin_queued {
                    seq![FrameView::Fin { stream_id: id }]
                } else {
                    seq![]
                }),
            )
            &&& after.tx.cursor == tx.end()
            &&& after.tx.end() == tx.end()
        }),
{
    let f = FrameView::ResumeOk { stream_id: id, recv_offset };
    let tx = m.streams[id].tx;
    let all = usize::MAX as nat;
    let m2 = m.applied(f);
    let back = tx.rewound(recv_offset as nat);
    assert(all * DATA_CHUNK >= all) by (nonlinear_arith);
    law_resume_resends_exactly_the_gap(m, id, recv_offset, all);
    law_output_is_contiguous(back, id, all);
    let es = m.effects(f);
    assert(es.drop_last() =~= Seq::<EffectView>::empty());
    reveal_with_fuel(all_carried_out, 2);
    reveal_with_fuel(all_actions_for, 2);
    let sent = StreamView { tx: after_data_frames(back, all), ..m2.streams[id] };
    lemma_after_data_frames(back, all);
    assert(sent.fin_due() == (m.streams[id].local_fin && !tx.fin_queued));
    assert(all_actions_for(m2, es) =~= sends(m2.output(id, all)));
}

proof fn lemma_after_data_frames(tx: SendView, n: nat)
    ensures
        after_data_frames(tx, n).fin_queued == tx.fin_queued,
        after_data_frames(tx, n).acked == tx.acked,
        after_data_frames(tx, n).unacked == tx.unacked,
        after_data_frames(tx, n).end() == tx.end(),
    decreases n,
{
    if n > 0 && tx.cursor < tx.end() {
        lemma_after_data_frames(tx.advanced(DATA_CHUNK as nat), (n - 1) as nat);
    }
}

/// What is written while there is no connection is kept whole and is still to
/// be sent: the cursor stays, and the bytes follow those that were there.
pub proof fn law_offline_write_is_kept(m: MuxView, id: u32, data: Seq<u8>)
    requires
        m.streams.contains_key(id),
        m.streams[id].tx.valid(),
        data.len() <= m.streams[id].tx.writable(),
    ensures
        ({
            let cmd = CommandView::LocalData { stream_id: id, data };
            let before = m.streams[id].tx;
            let after = buffered_offline(m, cmd).streams[id].tx;
            &&& buffered_offline(m, cmd).streams.contains_key(id)
            &&& after.cursor == before.cursor
            &&& after.acked == before.acked
            &&& after.unacked == before.unacked + data
            &&& offline_actions(m, cmd) == Seq::<ActionView>::empty()
            &&& buffered_offline(m, cmd) == (MuxView {
                streams: m.streams.insert(
                    id,
                    StreamView {
                        tx: SendView { unacked: before.unacked + data, ..before },
                        ..m.streams[id]
                    },
                ),
                ..m
            })
        }),
{
    assert(data.take(data.len() as int) =~= data);
}

/// A write that does not fit while there is no connection ends its stream, and
/// the local side is told: no byte is dropped in silence.
pub proof fn law_offline_overflow_is_told(m: MuxView, id: u32, data: Seq<u8>)
    requires
        m.streams.contains_key(id),
        m.streams[id].tx.valid(),
        data.len() > m.streams[id].tx.writable(),
    ensures
        ({
            let cmd = CommandView::LocalData { stream_id: id, data };
            &&& !buffered_offline(m, cmd).streams.contains_key(id)
            &&& offline_actions(m, cmd) == seq![
                ActionView::Terminate { stream_id: id, code: ResetCode::Internal },
            ]
        }),
{
}

/// No command that comes while there is no connection has anything sent.
pub proof fn law_offline_commands_send_nothing(m: MuxView, cmd: CommandView, i: int)
    requires
        0 <= i < offline_actions(m, cmd).len(),
    ensures
        !(offline_actions(m, cmd)[i] is Send),
{
}

/// The end of the local side's writing is announced only after the reconnect:
/// offline it is noted, and the next output of the drained stream ends with
/// it.
pub proof fn law_offline_eof_is_announced_later(m: MuxView, id: u32, n: nat)
    requires
        m.streams.contains_key(id),
        m.streams[id].tx.valid(),
        !m.streams[id].tx.fin_queued,
        n * DATA_CHUNK >= m.streams[id].tx.end() - m.streams[id].tx.cursor,
    ensures
        ({
            let after = buffered_offline(m, CommandView::LocalEof { stream_id: id });
            &&& offline_actions(m, CommandView::LocalEof { stream_id: id }) == Seq::<
                ActionView,
            >::empty()
            &&& !after.streams[id].tx.fin_queued
            &&& after.output(id, n).last() == (FrameView::Fin { stream_id: id })
        }),
{
    let after = buffered_offline(m, CommandView::LocalEof { stream_id: id });
    law_output_is_contiguous(after.streams[id].tx, id, n);
    lemma_after_data_frames(after.streams[id].tx, n);
}

/// While there is a connection, a write that fits the window is sent at once,
/// behind what was still to be sent, as far as the frames of one command
/// reach, whatever else is known of the stream. If the local side had stopped
/// writing and all was sent, the end of the stream follows.
pub proof fn law_writes_are_sent_at_once(
    m: MuxView,
    id: u32,
    data: Seq<u8>,
    n: MuxView,
    actions: Seq<ActionView>,
)
    requires
        m.streams.contains_key(id),
        m.streams[id].tx.valid(),
        m.streams[id].tx.unacked.len() + data.len() <= m.streams[id].tx.capacity,
        m.streams[id].tx.end() + data.len() <= u64::MAX,
        commanded(m, CommandView::LocalData { stream_id: id, data }, n, actions),
    ensures
        ({
            let s = m.streams[id];
            let left = s.tx.unacked.skip(s.tx.cursor - s.tx.acked) + data;
            let most: int = 2_097_152;
            let sent = if most < left.len() {
                most
            } else {
                left.len() as int
            };
            let fin = s.local_fin && sent == left.len() && !s.tx.fin_queued;
            let t = n.streams[id];
            &&& exists|frames: Seq<FrameView>|
                {
                    &&& #[trigger] contiguous(frames, id, s.tx.cursor)
                    &&& carried_bytes(frames) == left.take(sent)
                    &&& actions == sends(frames) + (if fin {
                        seq![ActionView::Send(FrameView::Fin { stream_id: id })]
                    } else {
                        seq![]
                    })
                }
            &&& t.tx.cursor == s.tx.cursor + sent
            &&& t.tx.unacked == s.tx.unacked + data
            &&& t.tx.acked == s.tx.acked
            &&& t.tx.capacity == s.tx.capacity
            &&& t.tx.fin_queued == (s.tx.fin_queued || fin)
            &&& t == (StreamView { tx: t.tx, ..s })
            &&& n == (MuxView { streams: m.streams.insert(id, t), ..m })
        }),
{
    let s = m.streams[id];
    let left = s.tx.unacked.skip(s.tx.cursor - s.tx.acked) + data;
    crate::resume::law_writes_fill_the_window(s.tx, data);
    let tx = s.tx.pushed(data);
    assert(tx.unacked =~= s.tx.unacked + data);
    assert(tx.unacked.skip(tx.cursor - tx.acked) =~= left);
    crate::mux::law_the_end_follows_the_output(m, id, StreamView { tx, ..s }, 64);
    let w = written(m, id, data);
    assert(actions == sends(w.output(id, 64)));
    assert(w.streams[id] == (StreamView { tx, ..s }));
    lemma_sends_concat(data_frames(tx, id, 64), FrameView::Fin { stream_id: id });
    let sent = if 64 * DATA_CHUNK < left.len() {
        64 * DATA_CHUNK
    } else {
        left.len() as int
    };
    let fin = s.local_fin && sent == left.len() && !s.tx.fin_queued;
    let frames = data_frames(tx, id, 64);
    assert(contiguous(frames, id, s.tx.cursor));
    assert(actions =~= sends(frames) + (if fin {
        seq![ActionView::Send(FrameView::Fin { stream_id: id })]
    } else {
        seq![]
    }));
    assert(n.streams =~= m.streams.insert(id, n.streams[id]));
}

proof fn lemma_sends_concat(frames: Seq<FrameView>, last: FrameView)
    ensures
        sends(frames + seq![last]) == sends(frames) + seq![ActionView::Send(last)],
        sends(frames + Seq::<FrameView>::empty()) == sends(frames),
{
    assert(sends(frames + seq![last]) =~= sends(frames) + seq![ActionView::Send(last)]);
    assert(frames + Seq::<FrameView>::empty() =~= frames);
}

/// While there is a connection, the end of the local side's writing is noted,
/// and announced behind all that was written, once. What was not sent before
/// goes first, as far as the frames of one command reach.
pub proof fn law_the_end_is_announced_behind_the_data(
    m: MuxView,
    id: u32,
    n: MuxView,
    actions: Seq<ActionView>,
)
    requires
        m.streams.contains_key(id),
        m.streams[id].tx.valid(),
        commanded(m, CommandView::LocalEof { stream_id: id }, n, actions),
    ensures
        ({
            let s = m.streams[id];
            let left = s.tx.unacked.skip(s.tx.cursor - s.tx.acked);
            let most: int = 2_097_152;
            let sent = if most < left.len() {
                most
            } else {
                left.len() as int
            };
            let fin = sent == left.len() && !s.tx.fin_queued;
            let t = n.streams[id];
            &&& exists|frames: Seq<FrameView>|
                {
                    &&& #[trigger] contiguous(frames, id, s.tx.cursor)
                    &&& carried_bytes(frames) == left.take(sent)
                    &&& actions == sends(frames) + (if fin {
                        seq![ActionView::Send(FrameView::Fin { stream_id: id })]
                    } else {
                        seq![]
                    })
                }
            &&& t.local_fin
            &&& t.tx == (SendView {
                cursor: (s.tx.cursor + sent) as nat,
                fin_queued: s.tx.fin_queued || fin,
                ..s.tx
            })
            &&& t == (StreamView { tx: t.tx, local_fin: true, ..s })
            &&& n == (MuxView { streams: m.streams.insert(id, t), ..m })
        }),
{
    let s = StreamView { local_fin: true, ..m.streams[id] };
    crate::mux::law_the_end_follows_the_output(m, id, s, 64);
    let frames = data_frames(s.tx, id, 64);
    lemma_sends_concat(frames, FrameView::Fin { stream_id: id });
    let e = local_ended(m, id);
    assert(e.streams[id] == s);
    assert(contiguous(frames, id, s.tx.cursor));
    assert(n.streams =~= m.streams.insert(id, n.streams[id]));
}

/// A write that does not fit ends its stream at both ends, rather than leave a
/// hole in it. It is the window alone that decides.
pub proof fn law_writes_beyond_the_window_end_the_stream(
    m: MuxView,
    id: u32,
    data: Seq<u8>,
    n: MuxView,
    actions: Seq<ActionView>,
)
    requires
        m.streams.contains_key(id),
        m.streams[id].tx.valid(),
        commanded(m, CommandView::LocalData { stream_id: id, data }, n, actions),
    ensures
        m.streams[id].tx.unacked.len() + data.len() > m.streams[id].tx.capacity ==> {
            &&& n == (MuxView { streams: m.streams.remove(id), ..m })
            &&& actions == seq![
                ActionView::Send(FrameView::Reset { stream_id: id, code: ResetCode::Internal }),
                ActionView::Forget { stream_id: id },
            ]
        },
        m.streams[id].tx.unacked.len() + data.len() <= m.streams[id].tx.capacity
            ==> n.streams.contains_key(id),
{
}

/// A stream whose local side is gone is reset at the helper and forgotten. A
/// command for a stream that is not known does nothing.
pub proof fn law_closing_and_strays(
    m: MuxView,
    id: u32,
    data: Seq<u8>,
    n: MuxView,
    actions: Seq<ActionView>,
)
    ensures
        commanded(m, CommandView::LocalClose { stream_id: id }, n, actions)
            && m.streams.contains_key(id) ==> {
            &&& n == (MuxView { streams: m.streams.remove(id), ..m })
            &&& actions == seq![
                ActionView::Forget { stream_id: id },
                ActionView::Send(FrameView::Reset { stream_id: id, code: ResetCode::Normal }),
            ]
        },
        !m.streams.contains_key(id) && (commanded(
            m,
            CommandView::LocalClose { stream_id: id },
            n,
            actions,
        ) || commanded(m, CommandView::LocalEof { stream_id: id }, n, actions) || commanded(
            m,
            CommandView::LocalData { stream_id: id, data },
            n,
            actions,
        )) ==> n == m && actions.len() == 0,
{
    if !m.streams.contains_key(id) {
        assert(m.streams.remove(id) =~= m.streams);
    }
}

/// A request to open a stream gets one of its own: the helper is asked for the
/// target, and the asking side is told the number, which may write at once.
pub proof fn law_opening_asks_the_helper(
    m: MuxView,
    addr: AddrView,
    request: u64,
    n: MuxView,
    actions: Seq<ActionView>,
)
    requires
        commanded(m, CommandView::Open { addr, request }, n, actions),
    ensures
        actions.len() == 2,
        exists|id: u32|
            {
                &&& id != 0
                &&& !m.streams.contains_key(id)
                &&& n.streams.dom() =~= m.streams.dom().insert(id)
                &&& n.streams[id].addr == addr
                &&& #[trigger] n.streams[id].tx.end() == 0
                &&& n.streams[id].tx.capacity == m.window
                &&& actions[0] == ActionView::Send(FrameView::Open { stream_id: id, addr })
                &&& actions[1] == (ActionView::Opened { request, stream_id: id })
            },
{
    let id = choose|id: u32|
        {
            &&& #[trigger] m.allocates(id)
            &&& n == m.with_new(id, addr)
            &&& actions == open_actions(PendingView { addr, request }, id)
        };
    crate::mux::law_new_streams_are_fresh(m, id, addr);
    assert(n.streams[id].tx.end() == 0);
}

/// A command changes no stream but its own.
pub proof fn law_commands_touch_only_their_stream(
    m: MuxView,
    cmd: CommandView,
    n: MuxView,
    actions: Seq<ActionView>,
    other: u32,
)
    requires
        commanded(m, cmd, n, actions) || n == buffered_offline(m, cmd),
        m.streams.contains_key(other),
        match cmd {
            CommandView::Open { .. } => true,
            CommandView::LocalData { stream_id, .. } => stream_id != other,
            CommandView::LocalEof { stream_id } => stream_id != other,
            CommandView::LocalClose { stream_id } => stream_id != other,
        },
    ensures
        n.streams.contains_key(other),
        n.streams[other] == m.streams[other],
        n.window == m.window,
{
}

/// Commands while there is no connection: the end of a stream's writing is
/// noted and its close forgets it. What is written for a stream that is not
/// known is dropped.
pub proof fn law_offline_ends_and_strays(m: MuxView, id: u32, data: Seq<u8>)
    ensures
        ({
            let close = CommandView::LocalClose { stream_id: id };
            let end = CommandView::LocalEof { stream_id: id };
            let write = CommandView::LocalData { stream_id: id, data };
            &&& buffered_offline(m, close) == (MuxView { streams: m.streams.remove(id), ..m })
            &&& offline_actions(m, close) == seq![ActionView::Forget { stream_id: id }]
            &&& offline_actions(m, end).len() == 0
            &&& m.streams.contains_key(id) ==> buffered_offline(m, end) == (MuxView {
                streams: m.streams.insert(id, StreamView { local_fin: true, ..m.streams[id] }),
                ..m
            })
            &&& !m.streams.contains_key(id) ==> {
                &&& buffered_offline(m, write) == m
                &&& buffered_offline(m, end) == m
                &&& offline_actions(m, write).len() == 0
            }
        }),
{
}

/// A request to open a stream that nobody can queue is refused, and told so.
pub proof fn law_offline_open_is_refused(m: MuxView, addr: AddrView, request: u64)
    ensures
        buffered_offline(m, CommandView::Open { addr, request }) == m,
        offline_actions(m, CommandView::Open { addr, request }) == seq![
            ActionView::Refused { request, error: DialError::Internal },
        ],
{
}

/// Whether the helper's frame was taken in, and came to exactly these actions.
pub open spec fn comes_to(step: SessionStep, actions: Seq<ActionView>) -> bool {
    step matches SessionStep::Continue(a) && action_views(a@) == actions
}

proof fn lemma_few_effects(m: MuxView, a: EffectView, b: EffectView)
    ensures
        all_carried_out(m, Seq::empty()) == m,
        all_actions_for(m, Seq::empty()) == Seq::<ActionView>::empty(),
        all_carried_out(m, seq![a]) == carried_out(m, a),
        all_actions_for(m, seq![a]) == actions_for(m, a),
        all_carried_out(m, seq![a, b]) == carried_out(carried_out(m, a), b),
        all_actions_for(m, seq![a, b]) == actions_for(m, a) + actions_for(carried_out(m, a), b),
{
    reveal_with_fuel(all_carried_out, 3);
    reveal_with_fuel(all_actions_for, 3);
    assert(seq![a].drop_last() =~= Seq::<EffectView>::empty());
    assert(seq![a, b].drop_last() =~= seq![a]);
    assert(Seq::<ActionView>::empty() + actions_for(m, a) =~= actions_for(m, a));
}

/// Data from the helper: the new bytes go to the local side and are
/// acknowledged, repeated ones are only acknowledged, and a hole or an unknown
/// stream is answered with a reset.
pub proof fn law_data_from_the_helper(
    before: ClientSession,
    m: MuxView,
    id: u32,
    offset: u64,
    data: Seq<u8>,
    after: ClientSession,
    n: MuxView,
    step: SessionStep,
)
    requires
        before.handshake_done,
        offset + data.len() <= u64::MAX,
        ClientSession::answers(
            before,
            m,
            FrameView::Data { stream_id: id, offset, data },
            after,
            n,
            step,
        ),
    ensures
        after == before,
        ({
            let s = m.streams[id];
            let end = (offset + data.len()) as u64;
            if !m.streams.contains_key(id) {
                let code = ResetCode::UnknownStream;
                &&& n == m
                &&& comes_to(
                    step,
                    seq![ActionView::Send(FrameView::Reset { stream_id: id, code })],
                )
            } else if offset > s.rx.delivered {
                let code = ResetCode::Internal;
                &&& n == (MuxView { streams: m.streams.remove(id), ..m })
                &&& comes_to(
                    step,
                    seq![
                        ActionView::Send(FrameView::Reset { stream_id: id, code }),
                        ActionView::Terminate { stream_id: id, code },
                    ],
                )
            } else if end <= s.rx.delivered {
                let ack = FrameView::Ack { stream_id: id, offset: s.rx.delivered as u64 };
                n == m && comes_to(step, seq![ActionView::Send(ack)])
            } else {
                let t = n.streams[id];
                &&& n == (MuxView { streams: m.streams.insert(id, t), ..m })
                &&& t.rx.delivered == end
                &&& t.rx.fin_at == s.rx.fin_at
                &&& t == (StreamView { rx: t.rx, ..s })
                &&& comes_to(
                    step,
                    seq![
                        ActionView::Deliver {
                            stream_id: id,
                            data: data.skip(s.rx.delivered - offset),
                        },
                        ActionView::Send(FrameView::Ack { stream_id: id, offset: end }),
                    ],
                )
            }
        }),
{
    let f = FrameView::Data { stream_id: id, offset, data };
    let es = m.effects(f);
    let m2 = m.applied(f);
    if m.streams.contains_key(id) && offset > m.streams[id].rx.delivered {
        crate::mux::law_a_hole_ends_the_stream(m, id, offset, data);
        lemma_few_effects(m2, es[0], es[1]);
        assert(es =~= seq![es[0], es[1]]);
        assert(m2.streams.remove(id) =~= m.streams.remove(id));
        assert(all_actions_for(m2, es) =~= seq![
            ActionView::Send(FrameView::Reset { stream_id: id, code: ResetCode::Internal }),
            ActionView::Terminate { stream_id: id, code: ResetCode::Internal },
        ]);
    } else if m.streams.contains_key(id) && offset + data.len() > m.streams[id].rx.delivered {
        crate::mux::law_new_data_is_delivered_and_acked(m, id, offset, data);
        lemma_few_effects(m2, es[0], es[1]);
        assert(es =~= seq![es[0], es[1]]);
        assert(all_actions_for(m2, es) =~= seq![
            ActionView::Deliver {
                stream_id: id,
                data: data.skip(m.streams[id].rx.delivered - offset),
            },
            ActionView::Send(
                FrameView::Ack { stream_id: id, offset: (offset + data.len()) as u64 },
            ),
        ]);
        assert(n.streams =~= m.streams.insert(id, n.streams[id]));
    } else {
        lemma_few_effects(m2, es[0], es[0]);
        assert(es =~= seq![es[0]]);
        assert(m2.streams =~= m.streams);
        if m.streams.contains_key(id) {
            crate::mux::law_duplicate_data_is_only_acked(m, id, offset, data);
            assert(all_actions_for(m2, es) =~= seq![
                ActionView::Send(
                    FrameView::Ack { stream_id: id, offset: m.streams[id].rx.delivered as u64 },
                ),
            ]);
        } else {
            assert(all_actions_for(m2, es) =~= seq![
                ActionView::Send(
                    FrameView::Reset { stream_id: id, code: ResetCode::UnknownStream },
                ),
            ]);
        }
    }
}

/// The other frames of the helper: the end of its writing is shown to the
/// local side, its failures end the stream there and here, and its signs of
/// life are answered. Acknowledgements and confirmations ask for nothing.
pub proof fn law_other_frames_from_the_helper(
    before: ClientSession,
    m: MuxView,
    f: FrameView,
    after: ClientSession,
    n: MuxView,
    step: SessionStep,
)
    requires
        before.handshake_done,
        ClientSession::answers(before, m, f, after, n, step),
    ensures
        match f {
            FrameView::OpenErr { stream_id, code, .. } => after == before && n == (MuxView {
                streams: m.streams.remove(stream_id),
                ..m
            }) && comes_to(step, seq![ActionView::Terminate { stream_id, code }]),
            FrameView::Reset { stream_id, code } => after == before && n == (MuxView {
                streams: m.streams.remove(stream_id),
                ..m
            }) && comes_to(step, seq![ActionView::Terminate { stream_id, code }]),
            FrameView::ResumeErr { stream_id, code } => after == before && n == (MuxView {
                streams: m.streams.remove(stream_id),
                ..m
            }) && comes_to(step, seq![ActionView::Terminate { stream_id, code }]),
            FrameView::Fin { stream_id } => m.streams.contains_key(stream_id) ==> {
                let t = n.streams[stream_id];
                &&& comes_to(step, seq![ActionView::ShutWrite { stream_id }])
                &&& n == (MuxView { streams: m.streams.insert(stream_id, t), ..m })
                &&& t.remote_fin
                &&& t.tx == m.streams[stream_id].tx
                &&& t.rx.delivered == m.streams[stream_id].rx.delivered
                &&& t.rx.fin_at is Some
                &&& t == (StreamView { rx: t.rx, remote_fin: true, ..m.streams[stream_id] })
            },
            FrameView::OpenOk { stream_id } => {
                &&& comes_to(step, Seq::empty())
                &&& m.streams.contains_key(stream_id) ==> n == (MuxView {
                    streams: m.streams.insert(
                        stream_id,
                        StreamView { opened: true, ..m.streams[stream_id] },
                    ),
                    ..m
                })
                &&& !m.streams.contains_key(stream_id) ==> n == m
            },
            FrameView::Ack { stream_id, offset } => if !m.streams.contains_key(stream_id) {
                n == m && comes_to(step, Seq::empty())
            } else if offset > m.streams[stream_id].tx.acked
                + m.streams[stream_id].tx.unacked.len() {
                n == (MuxView { streams: m.streams.remove(stream_id), ..m }) && comes_to(
                    step,
                    seq![ActionView::Terminate { stream_id, code: ResetCode::Internal }],
                )
            } else {
                let s = m.streams[stream_id];
                let t = n.streams[stream_id];
                &&& comes_to(step, Seq::empty())
                &&& n == (MuxView { streams: m.streams.insert(stream_id, t), ..m })
                &&& t == (StreamView { tx: t.tx, ..s })
                &&& offset <= s.tx.acked ==> t.tx == s.tx
                &&& offset > s.tx.acked ==> t.tx.acked == offset && t.tx.unacked
                    =~= s.tx.unacked.skip(offset - s.tx.acked)
            },
            FrameView::Ping { nonce } => n == m && comes_to(
                step,
                seq![ActionView::Send(FrameView::Pong { nonce })],
            ),
            FrameView::Pong { .. } => n == m && comes_to(step, Seq::empty()),
            _ => true,
        },
{
    let es = m.effects(f);
    let m2 = m.applied(f);
    match f {
        FrameView::OpenErr { stream_id, .. } => {
            lemma_few_effects(m2, es[0], es[0]);
            assert(es =~= seq![es[0]]);
            assert(m2.streams.remove(stream_id) =~= m.streams.remove(stream_id));
        },
        FrameView::Reset { stream_id, .. } => {
            lemma_few_effects(m2, es[0], es[0]);
            assert(es =~= seq![es[0]]);
            assert(m2.streams.remove(stream_id) =~= m.streams.remove(stream_id));
        },
        FrameView::ResumeErr { stream_id, .. } => {
            lemma_few_effects(m2, es[0], es[0]);
            assert(es =~= seq![es[0]]);
            assert(m2.streams.remove(stream_id) =~= m.streams.remove(stream_id));
        },
        FrameView::Fin { stream_id } => {
            if m.streams.contains_key(stream_id) {
                lemma_few_effects(m2, es[0], es[0]);
                assert(es =~= seq![es[0]]);
            }
        },
        FrameView::Ping { nonce } => {
            lemma_few_effects(m2, es[0], es[0]);
            assert(es =~= seq![es[0]]);
            assert(all_actions_for(m2, es) =~= seq![ActionView::Send(FrameView::Pong { nonce })]);
        },
        FrameView::Ack { stream_id, .. } => {
            if es.len() == 0 {
                assert(es =~= Seq::<EffectView>::empty());
                lemma_few_effects(m2, EffectView::Nothing, EffectView::Nothing);
            } else {
                lemma_few_effects(m2, es[0], es[0]);
                assert(es =~= seq![es[0]]);
                assert(m2.streams.remove(stream_id) =~= m.streams.remove(stream_id));
            }
        },
        _ => {
            lemma_few_effects(m2, EffectView::Nothing, EffectView::Nothing);
            if es.len() == 0 {
                assert(es =~= Seq::<EffectView>::empty());
            }
        },
    }
}

/// The helper's word that a stream goes on from where it stands: everything
/// that it lacks is sent at once, in order and without a hole, and the end of
/// the stream behind it if that is still to be announced. More than memory can
/// hold is left out. For a stream that is not known it means nothing.
pub proof fn law_granted_resumes_send_the_gap(
    before: ClientSession,
    m: MuxView,
    id: u32,
    recv_offset: u64,
    after: ClientSession,
    n: MuxView,
    step: SessionStep,
)
    requires
        before.handshake_done,
        m.streams.contains_key(id) ==> m.streams[id].tx.valid() && m.streams[id].tx.acked
            <= recv_offset <= m.streams[id].tx.end() && m.streams[id].tx.unacked.len()
            <= usize::MAX,
        ClientSession::answers(
            before,
            m,
            FrameView::ResumeOk { stream_id: id, recv_offset },
            after,
            n,
            step,
        ),
    ensures
        !m.streams.contains_key(id) ==> n == m && comes_to(step, Seq::empty()),
        m.streams.contains_key(id) ==> {
            let s = m.streams[id];
            let t = n.streams[id];
            let gap = s.tx.unacked.skip(recv_offset - s.tx.acked);
            &&& exists|frames: Seq<FrameView>|
                {
                    &&& #[trigger] contiguous(frames, id, recv_offset as nat)
                    &&& carried_bytes(frames) == gap
                    &&& comes_to(
                        step,
                        sends(
                            frames + (if s.local_fin && !s.tx.fin_queued {
                                seq![FrameView::Fin { stream_id: id }]
                            } else {
                                seq![]
                            }),
                        ),
                    )
                }
            &&& t.tx.cursor == s.tx.end()
            &&& t.tx.acked == recv_offset
            &&& t.tx.unacked == gap
            &&& t == (StreamView { tx: t.tx, ..s })
            &&& n.streams =~= m.streams.insert(id, t)
        },
{
    let f = FrameView::ResumeOk { stream_id: id, recv_offset };
    let es = m.effects(f);
    let m2 = m.applied(f);
    if m.streams.contains_key(id) {
        law_resumed_stream_sends_the_whole_gap(m, id, recv_offset);
        let all = usize::MAX as nat;
        let back = m2.streams[id];
        crate::mux::law_the_end_follows_the_output(m2, id, back, all);
        assert(all * DATA_CHUNK >= all) by (nonlinear_arith);
        let frames = data_frames(back.tx, id, all);
        assert(contiguous(frames, id, recv_offset as nat));
        lemma_few_effects(m2, es[0], es[0]);
        assert(es =~= seq![es[0]]);
        assert(back.tx.unacked.skip(0) =~= back.tx.unacked);
        assert(back.tx.unacked =~= m.streams[id].tx.unacked.skip(
            recv_offset - m.streams[id].tx.acked,
        ));
    } else {
        assert(es =~= Seq::<EffectView>::empty());
        lemma_few_effects(m2, EffectView::Nothing, EffectView::Nothing);
    }
}

/// The end of a stream that is not known here is passed over.
pub proof fn law_stray_ends_are_passed_over(
    before: ClientSession,
    m: MuxView,
    id: u32,
    after: ClientSession,
    n: MuxView,
    step: SessionStep,
)
    requires
        before.handshake_done,
        !m.streams.contains_key(id),
        ClientSession::answers(before, m, FrameView::Fin { stream_id: id }, after, n, step),
    ensures
        n == m,
        comes_to(step, Seq::empty()),
{
    let f = FrameView::Fin { stream_id: id };
    assert(m.effects(f) =~= Seq::<EffectView>::empty());
    lemma_few_effects(m, EffectView::Nothing, EffectView::Nothing);
}

/// A stream that the helper cannot go on with, since bytes that it lacks were
/// released here or it claims bytes that were never written, is reset there
/// and ended here.
pub proof fn law_impossible_resumes_end_the_stream(
    before: ClientSession,
    m: MuxView,
    id: u32,
    recv_offset: u64,
    after: ClientSession,
    n: MuxView,
    step: SessionStep,
)
    requires
        before.handshake_done,
        m.streams.contains_key(id),
        recv_offset < m.streams[id].tx.acked || recv_offset > m.streams[id].tx.end(),
        ClientSession::answers(
            before,
            m,
            FrameView::ResumeOk { stream_id: id, recv_offset },
            after,
            n,
            step,
        ),
    ensures
        n == (MuxView { streams: m.streams.remove(id), ..m }),
        comes_to(
            step,
            seq![
                ActionView::Send(
                    FrameView::Reset { stream_id: id, code: ResetCode::ResumeImpossible },
                ),
                ActionView::Terminate { stream_id: id, code: ResetCode::ResumeImpossible },
            ],
        ),
{
    let f = FrameView::ResumeOk { stream_id: id, recv_offset };
    let es = m.effects(f);
    let m2 = m.applied(f);
    lemma_few_effects(m2, es[0], es[1]);
    assert(es =~= seq![es[0], es[1]]);
    assert(m2.streams.remove(id) =~= m.streams.remove(id));
    assert(all_actions_for(m2, es) =~= seq![
        ActionView::Send(FrameView::Reset { stream_id: id, code: ResetCode::ResumeImpossible }),
        ActionView::Terminate { stream_id: id, code: ResetCode::ResumeImpossible },
    ]);
}

/// Whether each stream of `m` is ended by exactly one of the actions, and
/// nothing else is done.
pub open spec fn each_is_ended(m: MuxView, code: ResetCode, actions: Seq<ActionView>) -> bool {
    &&& actions.len() == m.streams.dom().len()
    &&& forall|id: u32| #[trigger]
        m.streams.contains_key(id) ==> actions.contains(
            ActionView::Terminate { stream_id: id, code },
        )
}

/// Ending all streams tells the local side of each, once, and does nothing
/// else.
pub proof fn law_every_stream_is_ended(m: MuxView, code: ResetCode, actions: Seq<ActionView>)
    requires
        ends_all(m, code, actions),
    ensures
        each_is_ended(m, code, actions),
{
    let ids = choose|ids: Seq<u32>|
        ids.no_duplicates() && #[trigger] ids.to_set() == m.streams.dom() && actions
            == terminations(ids, code);
    ids.unique_seq_to_set();
    assert forall|id: u32| #[trigger] m.streams.contains_key(id) implies actions.contains(
        ActionView::Terminate { stream_id: id, code },
    ) by {
        assert(ids.to_set().contains(id));
        let i = choose|i: int| 0 <= i < ids.len() && ids[i] == id;
        assert(actions[i] == (ActionView::Terminate { stream_id: id, code }));
    }
}

/// The helper's answer to the handshake. Another version ends every stream and
/// the channel. A helper that has lost the streams ends them. One that has kept
/// them is asked, for each, for the bytes from where the stream stands. Where
/// there was nothing to resume, nothing is to be done.
pub proof fn law_the_handshake_is_answered(
    before: ClientSession,
    m: MuxView,
    version: u8,
    session_id: Seq<u8>,
    resumed: bool,
    after: ClientSession,
    n: MuxView,
    step: SessionStep,
)
    requires
        ClientSession::answers(
            before,
            m,
            FrameView::HelloAck { version, session_id, resumed },
            after,
            n,
            step,
        ),
    ensures
        version != 1 ==> {
            &&& after == before
            &&& n.streams.dom().len() == 0
            &&& step matches SessionStep::Lost(a) && each_is_ended(
                m,
                ResetCode::Internal,
                action_views(a@),
            )
        },
        version == 1 ==> after.handshake_done && after.resuming == before.resuming,
        version == 1 && !before.resuming ==> n == m && comes_to(step, Seq::empty()),
        version == 1 && before.resuming && !resumed ==> {
            &&& n.streams.dom().len() == 0
            &&& step matches SessionStep::Continue(a) && each_is_ended(
                m,
                ResetCode::UnknownStream,
                action_views(a@),
            )
        },
        version == 1 && before.resuming && resumed ==> {
            &&& n == m
            &&& step matches SessionStep::Continue(a) && a@.len() == m.streams.dom().len()
                && forall|id: u32| #[trigger]
                m.streams.contains_key(id) ==> action_views(a@).contains(
                    ActionView::Send(
                        FrameView::Resume {
                            stream_id: id,
                            recv_offset: m.streams[id].rx.delivered as u64,
                        },
                    ),
                )
        },
{
    if version != PROTO_VERSION {
        if let SessionStep::Lost(a) = step {
            law_every_stream_is_ended(m, ResetCode::Internal, action_views(a@));
        }
    } else if !before.resuming {
        if let SessionStep::Continue(a) = step {
            assert(action_views(a@) =~= Seq::<ActionView>::empty());
        }
    } else if !resumed {
        if let SessionStep::Continue(a) = step {
            law_every_stream_is_ended(m, ResetCode::UnknownStream, action_views(a@));
        }
    } else {
        if let SessionStep::Continue(a) = step {
            let ids = choose|ids: Seq<u32>|
                ids.no_duplicates() && #[trigger] ids.to_set() == m.streams.dom() && action_views(
                    a@,
                ) == sends(resume_requests(m, ids));
            ids.unique_seq_to_set();
            assert(action_views(a@).len() == a@.len());
            assert forall|id: u32| #[trigger] m.streams.contains_key(id) implies action_views(
                a@,
            ).contains(
                ActionView::Send(
                    FrameView::Resume {
                        stream_id: id,
                        recv_offset: m.streams[id].rx.delivered as u64,
                    },
                ),
            ) by {
                assert(ids.to_set().contains(id));
                let i = choose|i: int| 0 <= i < ids.len() && ids[i] == id;
                assert(action_views(a@)[i] == ActionView::Send(resume_request(m, id)));
            }
        }
    }
}

/// Nothing is taken from a helper that has not answered the handshake: the
/// channel is given up, and the streams stay as they are for the next one.
pub proof fn law_frames_before_the_handshake_lose_the_channel(
    before: ClientSession,
    m: MuxView,
    f: FrameView,
    after: ClientSession,
    n: MuxView,
    step: SessionStep,
)
    requires
        !before.handshake_done,
        !(f is HelloAck),
        ClientSession::answers(before, m, f, after, n, step),
    ensures
        after == before,
        n == m,
        step matches SessionStep::Lost(a) && a@.len() == 0,
{
}

/// Requests that waited for a connection are served in the order in which they
/// came: each gets a stream of its own to its own target, and is told so. The
/// streams that were there stay as they are.
pub proof fn law_waiting_requests_are_served_in_order(
    m: MuxView,
    reqs: Seq<PendingView>,
    ids: Seq<u32>,
    i: int,
)
    requires
        all_allocate(m, reqs, ids),
        0 <= i < reqs.len(),
    ensures
        ({
            let n = all_opened(m, reqs, ids);
            let actions = all_open_actions(reqs, ids);
            &&& ids.len() == reqs.len()
            &&& actions.len() == 2 * reqs.len()
            &&& actions[2 * i] == ActionView::Send(
                FrameView::Open { stream_id: ids[i], addr: reqs[i].addr },
            )
            &&& actions[2 * i + 1] == (ActionView::Opened {
                request: reqs[i].request,
                stream_id: ids[i],
            })
            &&& ids[i] != 0
            &&& !m.streams.contains_key(ids[i])
            &&& n.streams.contains_key(ids[i])
            &&& n.streams[ids[i]].addr == reqs[i].addr
            &&& n.streams[ids[i]].tx.end() == 0
            &&& forall|j: int| 0 <= j < ids.len() && j != i ==> #[trigger] ids[j] != ids[i]
            &&& forall|id: u32| #[trigger]
                m.streams.contains_key(id) ==> n.streams.contains_key(id) && n.streams[id]
                    == m.streams[id]
        }),
{
    lemma_served(m, reqs, ids);
}

proof fn lemma_served(m: MuxView, reqs: Seq<PendingView>, ids: Seq<u32>)
    requires
        all_allocate(m, reqs, ids),
    ensures
        ({
            let n = all_opened(m, reqs, ids);
            let actions = all_open_actions(reqs, ids);
            &&& ids.len() == reqs.len()
            &&& ids.no_duplicates()
            &&& actions.len() == 2 * reqs.len()
            &&& forall|i: int|
                #![trigger ids[i]]
                0 <= i < ids.len() ==> {
                    &&& actions[2 * i] == ActionView::Send(
                        FrameView::Open { stream_id: ids[i], addr: reqs[i].addr },
                    )
                    &&& actions[2 * i + 1] == (ActionView::Opened {
                        request: reqs[i].request,
                        stream_id: ids[i],
                    })
                    &&& ids[i] != 0
                    &&& !m.streams.contains_key(ids[i])
                    &&& n.streams.contains_key(ids[i])
                    &&& n.streams[ids[i]].addr == reqs[i].addr
                    &&& n.streams[ids[i]].tx.end() == 0
                }
            &&& forall|id: u32| #[trigger]
                m.streams.contains_key(id) ==> n.streams.contains_key(id) && n.streams[id]
                    == m.streams[id]
        }),
    decreases reqs.len(),
{
    if reqs.len() > 0 {
        let r = reqs.drop_last();
        let k = ids.drop_last();
        lemma_served(m, r, k);
        let n0 = all_opened(m, r, k);
        let n = all_opened(m, reqs, ids);
        let before = all_open_actions(r, k);
        let actions = all_open_actions(reqs, ids);
        crate::mux::law_new_streams_are_fresh(n0, ids.last(), reqs.last().addr);
        assert forall|i: int|
            #![trigger ids[i]]
            0 <= i < ids.len() implies {
            &&& actions[2 * i] == ActionView::Send(
                FrameView::Open { stream_id: ids[i], addr: reqs[i].addr },
            )
            &&& actions[2 * i + 1] == (ActionView::Opened {
                request: reqs[i].request,
                stream_id: ids[i],
            })
            &&& ids[i] != 0
            &&& !m.streams.contains_key(ids[i])
            &&& n.streams.contains_key(ids[i])
            &&& n.streams[ids[i]].addr == reqs[i].addr
            &&& n.streams[ids[i]].tx.end() == 0
        } by {
            if i < k.len() {
                assert(k[i] == ids[i]);
                assert(r[i] == reqs[i]);
                assert(actions[2 * i] == before[2 * i]);
                assert(actions[2 * i + 1] == before[2 * i + 1]);
                assert(n0.streams.contains_key(k[i]));
            }
        }
        assert forall|i: int, j: int| 0 <= i < j < ids.len() implies ids[i] != ids[j] by {
            assert(k[i] == ids[i]);
            if j < k.len() {
                assert(k[j] == ids[j]);
            } else {
                assert(n0.streams.contains_key(k[i]));
            }
        }
    }
}

} // verus!
