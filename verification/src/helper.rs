//! The remote helper's session: its streams to the targets, and what a frame
//! of the client or the end of a stream does to them.
//!
//! Nothing here reads or writes. Every function says what is to be done, as a
//! list of actions in order.

use std::collections::hash_map::Entry;
use std::collections::HashMap;

use bytes::{Bytes, BytesMut};
use vstd::prelude::*;
use vstd::std_specs::iter::IteratorSpec;

use crate::addr::AddrView;
use crate::allow::{permitted, rule_of, AllowError, AllowList, RuleView};
use crate::buf::{buffered, content};
use crate::frame::{decode_consumed, decode_result, FrameView};
use crate::frontend::ct_eq;
use crate::resume::{RecvView, SendView};
use crate::stream::{Downlink, DownlinkView, StreamEvent};
use crate::{
    Frame, ProtoError, RecvTracker, ResetCode, SendBuffer, SessionId, StreamId, TargetAddr,
    DEFAULT_STREAM_WINDOW, MAX_FRAME_PAYLOAD, PROTO_VERSION,
};

verus! {

broadcast use vstd::std_specs::hash::group_hash_axioms;

/// How many streams a helper holds at the same time.
pub const MAX_STREAMS: usize = 512;

/// How long connecting to a target may take.
pub const CONNECT_TIMEOUT_SECS: u64 = 10;

/// What a helper session keeps to.
#[derive(Debug)]
pub struct SessionConfig {
    pub allow: AllowList,
    /// After how many seconds without a frame the helper ends.
    pub idle_timeout_secs: Option<u64>,
    /// How many unacknowledged bytes each stream may hold.
    pub stream_window: u64,
    pub max_streams: usize,
}

/// Why a helper cannot start.
#[derive(Debug, Clone, Copy, PartialEq, Eq)]
pub enum HelperArgError {
    /// The window holds nothing.
    ZeroWindow,
    /// A pattern of the allow list is no rule.
    Allow(AllowError),
}

impl Default for SessionConfig {
    fn default() -> (r: SessionConfig)
        ensures
            r.allow@.len() == 0,
            r.idle_timeout_secs is None,
            r.stream_window == DEFAULT_STREAM_WINDOW,
            r.max_streams == MAX_STREAMS,
    {
        SessionConfig {
            allow: AllowList::default(),
            idle_timeout_secs: None,
            stream_window: DEFAULT_STREAM_WINDOW,
            max_streams: MAX_STREAMS,
        }
    }
}

impl SessionConfig {
    /// The session that the command line asks for. No seconds mean no limit.
    pub fn from_args(allow: &[&str], idle_timeout: u64, stream_window: u64) -> (r: Result<
        SessionConfig,
        HelperArgError,
    >)
        ensures
            match r {
                Ok(c) => {
                    &&& stream_window > 0
                    &&& c.stream_window == stream_window
                    &&& c.max_streams == MAX_STREAMS
                    &&& c.idle_timeout_secs == (if idle_timeout == 0 {
                        None::<u64>
                    } else {
                        Some(idle_timeout)
                    })
                    &&& c.allow@.len() == allow@.len()
                    &&& forall|i: int|
                        0 <= i < allow@.len() ==> rule_of(#[trigger] allow@[i]@) == Ok::<
                            _,
                            AllowError,
                        >(c.allow@[i])
                },
                Err(HelperArgError::ZeroWindow) => stream_window == 0,
                Err(HelperArgError::Allow(e)) => stream_window > 0 && exists|i: int|
                    {
                        &&& 0 <= i < allow@.len()
                        &&& rule_of(#[trigger] allow@[i]@) == Err::<RuleView, _>(e)
                        &&& forall|j: int| 0 <= j < i ==> rule_of(#[trigger] allow@[j]@) is Ok
                    },
            },
    {
        if stream_window == 0 {
            return Err(HelperArgError::ZeroWindow);
        }
        match AllowList::parse(allow) {
            Ok(list) => Ok(
                SessionConfig {
                    allow: list,
                    idle_timeout_secs: if idle_timeout == 0 {
                        None
                    } else {
                        Some(idle_timeout)
                    },
                    stream_window,
                    max_streams: MAX_STREAMS,
                },
            ),
            Err(e) => Err(HelperArgError::Allow(e)),
        }
    }
}

/// A stream of the session.
#[derive(Debug)]
pub struct EgressStream {
    /// What comes from the client.
    pub recv: RecvTracker,
    /// What goes to the client.
    pub tx: SendBuffer,
    /// The target has ended and the client has acknowledged everything.
    pub egress_done: bool,
    /// The client has stopped writing.
    pub ingress_fin: bool,
}

/// What a stream stands for.
#[verifier::ext_equal]
pub struct EgressView {
    pub recv: RecvView,
    pub tx: SendView,
    pub egress_done: bool,
    pub ingress_fin: bool,
}

impl View for EgressStream {
    type V = EgressView;

    open spec fn view(&self) -> EgressView {
        EgressView {
            recv: self.recv@,
            tx: self.tx@,
            egress_done: self.egress_done,
            ingress_fin: self.ingress_fin,
        }
    }
}

impl EgressView {
    /// A stream whose target is being connected.
    pub open spec fn fresh(window: nat) -> EgressView {
        EgressView {
            recv: RecvView { delivered: 0, fin_at: None },
            tx: SendView {
                acked: 0,
                cursor: 0,
                capacity: window,
                unacked: seq![],
                fin_queued: false,
            },
            egress_done: false,
            ingress_fin: false,
        }
    }

    /// Whether both directions have ended and nothing can be asked for again.
    pub open spec fn finished(self) -> bool {
        self.ingress_fin && self.egress_done && self.tx.unacked.len() == 0
    }
}

/// What is to be done.
#[derive(Debug, PartialEq, Eq)]
pub enum HelperAction {
    /// Send the frame to the client.
    Send(Frame),
    /// Connect to the target and start the stream.
    Spawn { stream_id: StreamId, addr: TargetAddr },
    /// Stop the stream and close its socket.
    Stop { stream_id: StreamId },
    /// Hand the item to the stream.
    Hand { stream_id: StreamId, item: Downlink },
    /// Let the stream look at its buffer again.
    Wake { stream_id: StreamId },
}

/// What an action stands for.
#[verifier::ext_equal]
pub enum HelperActionView {
    Send(FrameView),
    Spawn { stream_id: u32, addr: AddrView },
    Stop { stream_id: u32 },
    Hand { stream_id: u32, item: DownlinkView },
    Wake { stream_id: u32 },
}

impl View for HelperAction {
    type V = HelperActionView;

    open spec fn view(&self) -> HelperActionView {
        match self {
            HelperAction::Send(f) => HelperActionView::Send(f@),
            HelperAction::Spawn { stream_id, addr } => HelperActionView::Spawn {
                stream_id: *stream_id,
                addr: addr@,
            },
            HelperAction::Stop { stream_id } => HelperActionView::Stop { stream_id: *stream_id },
            HelperAction::Hand { stream_id, item } => HelperActionView::Hand {
                stream_id: *stream_id,
                item: item@,
            },
            HelperAction::Wake { stream_id } => HelperActionView::Wake { stream_id: *stream_id },
        }
    }
}

/// What several actions stand for.
pub open spec fn helper_views(actions: Seq<HelperAction>) -> Seq<HelperActionView> {
    actions.map_values(|a: HelperAction| a@)
}

/// What a session keeps to, as far as frames go.
#[verifier::ext_equal]
pub struct LimitsView {
    pub allow: Seq<RuleView>,
    pub window: nat,
    pub max_streams: nat,
}

/// What a session stands for.
#[verifier::ext_equal]
pub struct HelperView {
    /// The client's name for the session, once there is one.
    pub session: Option<Seq<u8>>,
    pub streams: Map<u32, EgressView>,
    pub limits: LimitsView,
}

/// A helper session.
#[derive(Debug)]
pub struct HelperSession {
    session_id: Option<SessionId>,
    streams: HashMap<StreamId, EgressStream>,
    config: SessionConfig,
}

impl View for HelperSession {
    type V = HelperView;

    open spec fn view(&self) -> HelperView {
        HelperView {
            session: self.named(),
            streams: self.table().map_values(|s: EgressStream| s@),
            limits: self.limits(),
        }
    }
}

/// Sending one frame.
pub open spec fn send(f: FrameView) -> HelperActionView {
    HelperActionView::Send(f)
}

/// Stopping several streams.
pub open spec fn stops(ids: Seq<u32>) -> Seq<HelperActionView> {
    ids.map_values(|id: u32| HelperActionView::Stop { stream_id: id })
}

/// The refusal of a stream.
pub open spec fn open_err(id: u32, code: ResetCode, msg: Seq<char>) -> HelperActionView {
    send(FrameView::OpenErr { stream_id: id, code, msg })
}

impl HelperView {
    /// The same streams but for that one.
    pub open spec fn with(self, id: u32, s: EgressView) -> HelperView {
        HelperView { streams: self.streams.insert(id, s), ..self }
    }

    /// The streams without that one.
    pub open spec fn without(self, id: u32) -> HelperView {
        HelperView { streams: self.streams.remove(id), ..self }
    }

    /// Stopping a stream, if there is one of that number.
    pub open spec fn stop(self, id: u32) -> Seq<HelperActionView> {
        if self.streams.contains_key(id) {
            seq![HelperActionView::Stop { stream_id: id }]
        } else {
            seq![]
        }
    }

    /// The streams after one that has finished was dropped.
    pub open spec fn cleaned(self, id: u32) -> HelperView {
        if self.streams.contains_key(id) && self.streams[id].finished() {
            self.without(id)
        } else {
            self
        }
    }

    /// What dropping a finished stream takes.
    pub open spec fn cleaning(self, id: u32) -> Seq<HelperActionView> {
        if self.streams.contains_key(id) && self.streams[id].finished() {
            seq![HelperActionView::Stop { stream_id: id }]
        } else {
            seq![]
        }
    }

    /// Whether a handshake finds its streams again: the same session, a
    /// request to resume it, and streams to resume.
    pub open spec fn resumes(self, requested: Seq<u8>, resume: bool) -> bool {
        resume && self.session == Some(requested) && self.streams.dom().len() > 0
    }

    /// Why a new stream is refused, if it is.
    pub open spec fn refusal(self, id: u32, addr: AddrView) -> Option<HelperActionView> {
        if self.streams.contains_key(id) {
            Some(open_err(id, ResetCode::Internal, "duplicate stream id"@))
        } else if self.streams.dom().len() >= self.limits.max_streams {
            Some(open_err(id, ResetCode::Internal, "too many streams"@))
        } else if !permitted(self.limits.allow, addr) {
            Some(open_err(id, ResetCode::Forbidden, "target rejected by allow list"@))
        } else {
            None
        }
    }

    /// The stream after the client has stopped writing.
    pub open spec fn ingress_ended(self, id: u32) -> HelperView {
        let s = self.streams[id];
        if s.ingress_fin {
            self
        } else {
            self.with(
                id,
                EgressView {
                    ingress_fin: true,
                    recv: RecvView { fin_at: Some(s.recv.delivered), ..s.recv },
                    ..s
                },
            )
        }
    }

    /// The session after a frame of the client.
    pub open spec fn after(self, f: FrameView) -> HelperView {
        match f {
            FrameView::Hello { version, session_id, resume } => if version != PROTO_VERSION
                || self.resumes(session_id, resume) {
                self
            } else {
                HelperView { session: Some(session_id), streams: Map::empty(), ..self }
            },
            FrameView::Open { stream_id, addr } => if self.refusal(stream_id, addr) is Some {
                self
            } else {
                self.with(stream_id, EgressView::fresh(self.limits.window))
            },
            FrameView::Data { stream_id, offset, data } => if self.streams.contains_key(
                stream_id,
            ) {
                let s = self.streams[stream_id];
                if s.recv.accept_result(offset as nat, data) is Err {
                    self.without(stream_id)
                } else {
                    self.with(
                        stream_id,
                        EgressView { recv: s.recv.accepted(offset as nat, data), ..s },
                    )
                }
            } else {
                self
            },
            FrameView::Ack { stream_id, offset } => if self.streams.contains_key(stream_id) {
                let s = self.streams[stream_id];
                if s.tx.ack_result(offset as nat) is Err {
                    self.without(stream_id)
                } else {
                    self.with(
                        stream_id,
                        EgressView { tx: s.tx.released(offset as nat), ..s },
                    ).cleaned(stream_id)
                }
            } else {
                self
            },
            FrameView::Fin { stream_id } => if self.streams.contains_key(stream_id) {
                self.ingress_ended(stream_id).cleaned(stream_id)
            } else {
                self
            },
            FrameView::Reset { stream_id, .. } => self.without(stream_id),
            FrameView::Resume { stream_id, recv_offset } => if self.streams.contains_key(
                stream_id,
            ) {
                let s = self.streams[stream_id];
                if s.tx.rewind_result(recv_offset as nat) is Err {
                    self.without(stream_id)
                } else {
                    self.with(
                        stream_id,
                        EgressView { tx: s.tx.rewound(recv_offset as nat), ..s },
                    )
                }
            } else {
                self
            },
            _ => self,
        }
    }

    /// What a frame of the client other than the handshake calls for.
    pub open spec fn actions(self, f: FrameView) -> Seq<HelperActionView> {
        match f {
            FrameView::Open { stream_id, addr } => match self.refusal(stream_id, addr) {
                Some(err) => seq![err],
                None => seq![HelperActionView::Spawn { stream_id, addr }],
            },
            FrameView::Data { stream_id, offset, data } => if self.streams.contains_key(
                stream_id,
            ) {
                let recv = self.streams[stream_id].recv;
                let delivered = recv.accepted(offset as nat, data).delivered as u64;
                match recv.accept_result(offset as nat, data) {
                    Ok(Some(bytes)) => seq![
                        HelperActionView::Hand {
                            stream_id,
                            item: DownlinkView::Data { bytes, delivered },
                        },
                    ],
                    Ok(None) => seq![
                        HelperActionView::Hand {
                            stream_id,
                            item: DownlinkView::Duplicate { delivered },
                        },
                    ],
                    Err(_) => seq![
                        HelperActionView::Stop { stream_id },
                        send(FrameView::Reset { stream_id, code: ResetCode::Internal }),
                    ],
                }
            } else {
                seq![send(FrameView::Reset { stream_id, code: ResetCode::UnknownStream })]
            },
            FrameView::Ack { stream_id, offset } => if self.streams.contains_key(stream_id) {
                let s = self.streams[stream_id];
                if s.tx.ack_result(offset as nat) is Err {
                    seq![
                        HelperActionView::Stop { stream_id },
                        send(FrameView::Reset { stream_id, code: ResetCode::Internal }),
                    ]
                } else {
                    seq![HelperActionView::Wake { stream_id }] + self.with(
                        stream_id,
                        EgressView { tx: s.tx.released(offset as nat), ..s },
                    ).cleaning(stream_id)
                }
            } else {
                seq![]
            },
            FrameView::Fin { stream_id } => if self.streams.contains_key(stream_id) {
                (if self.streams[stream_id].ingress_fin {
                    seq![]
                } else {
                    seq![HelperActionView::Hand { stream_id, item: DownlinkView::Fin }]
                }) + self.ingress_ended(stream_id).cleaning(stream_id)
            } else {
                seq![send(FrameView::Reset { stream_id, code: ResetCode::UnknownStream })]
            },
            FrameView::Reset { stream_id, .. } => self.stop(stream_id),
            FrameView::Resume { stream_id, recv_offset } => if self.streams.contains_key(
                stream_id,
            ) {
                let s = self.streams[stream_id];
                if s.tx.rewind_result(recv_offset as nat) is Err {
                    seq![
                        HelperActionView::Stop { stream_id },
                        send(
                            FrameView::ResumeErr { stream_id, code: ResetCode::ResumeImpossible },
                        ),
                    ]
                } else {
                    seq![
                        HelperActionView::Wake { stream_id },
                        send(
                            FrameView::ResumeOk {
                                stream_id,
                                recv_offset: s.recv.delivered as u64,
                            },
                        ),
                    ]
                }
            } else {
                seq![send(FrameView::ResumeErr { stream_id, code: ResetCode::UnknownStream })]
            },
            FrameView::Ping { nonce } => seq![send(FrameView::Pong { nonce })],
            _ => seq![],
        }
    }

    /// Whether the actions are what a frame of the client calls for.
    pub open spec fn answers(self, f: FrameView, actions: Seq<HelperActionView>) -> bool {
        match f {
            FrameView::Hello { version, session_id, resume } => {
                let resumed = version == PROTO_VERSION && self.resumes(session_id, resume);
                let ack = send(
                    FrameView::HelloAck { version: PROTO_VERSION, session_id, resumed },
                );
                if version != PROTO_VERSION || resumed {
                    actions == seq![ack]
                } else {
                    // The old streams end, in no particular order.
                    exists|ids: Seq<u32>|
                        ids.no_duplicates() && #[trigger] ids.to_set() == self.streams.dom()
                            && actions == stops(ids).push(ack)
                }
            },
            _ => actions == self.actions(f),
        }
    }

    /// Whether a frame of the client ends the session.
    pub open spec fn ends(f: FrameView) -> bool {
        f matches FrameView::Hello { version, .. } && version != PROTO_VERSION
    }

    /// Whether the stream's byte count still fits 64 bits after the frame.
    pub open spec fn countable(self, f: FrameView) -> bool {
        f matches FrameView::Data { stream_id, offset, data } ==> self.streams.contains_key(
            stream_id,
        ) && offset <= self.streams[stream_id].recv.delivered ==> offset + data.len() <= u64::MAX
    }

    /// The same for the frame at the front of some bytes, if there is one.
    pub open spec fn countable_next(self, s: Seq<u8>) -> bool {
        decode_result(s) matches Ok(Some(f)) ==> self.countable(f)
    }
}

impl HelperSession {
    /// The streams themselves.
    pub closed spec fn table(&self) -> Map<u32, EgressStream> {
        self.streams@
    }

    /// The client's name for the session.
    pub closed spec fn named(&self) -> Option<Seq<u8>> {
        match self.session_id {
            Some(id) => Some(id@),
            None => None,
        }
    }

    /// What the session keeps to.
    pub closed spec fn limits(&self) -> LimitsView {
        LimitsView {
            allow: self.config.allow@,
            window: self.config.stream_window as nat,
            max_streams: self.config.max_streams as nat,
        }
    }

    pub open spec fn wf(&self) -> bool {
        &&& self@.limits.window > 0
        &&& self@.limits.window <= u64::MAX
        &&& self.table().dom().finite()
        &&& forall|id: u32| #[trigger] self.table().contains_key(id) ==> self.table()[id].tx.wf()
    }

    /// A session without streams.
    pub fn new(config: SessionConfig) -> (r: HelperSession)
        requires
            config.stream_window > 0,
        ensures
            r.wf(),
            r@ == (HelperView {
                session: None,
                streams: Map::empty(),
                limits: LimitsView {
                    allow: config.allow@,
                    window: config.stream_window as nat,
                    max_streams: config.max_streams as nat,
                },
            }),
    {
        let r = HelperSession { session_id: None, streams: HashMap::new(), config };
        assert(r@.streams =~= Map::empty());
        r
    }

    /// The stream of that number, to be changed.
    pub fn stream_mut(&mut self, id: StreamId) -> (r: Option<&mut EgressStream>)
        ensures
            match r {
                Some(st) => {
                    &&& old(self).table().contains_key(id)
                    &&& *st == old(self).table()[id]
                    &&& final(self).table() == old(self).table().insert(id, *final(st))
                    &&& final(self)@ == old(self)@.with(id, (*final(st))@)
                },
                None => !old(self).table().contains_key(id) && final(self).table() == old(
                    self,
                ).table() && final(self)@ == old(self)@,
            },
    {
        let ghost before = self.streams@;
        match self.streams.entry(id) {
            Entry::Occupied(e) => {
                let st = e.into_mut();
                proof {
                    let after = before.insert(id, *final(st));
                    assert(after.map_values(|s: EgressStream| s@) =~= before.map_values(
                        |s: EgressStream| s@,
                    ).insert(id, (*final(st))@));
                }
                Some(st)
            },
            Entry::Vacant(e) => {
                assert(before.remove(id) =~= before);
                None
            },
        }
    }

    /// How many streams there are.
    pub fn stream_count(&self) -> (r: usize)
        requires
            self.wf(),
        ensures
            r == self@.streams.dom().len(),
    {
        assert(self@.streams.dom() =~= self.streams@.dom());
        self.streams.len()
    }

    /// Takes a stream out and stops it, if there is one of that number.
    fn remove_stream(&mut self, id: StreamId, out: &mut Vec<HelperAction>)
        requires
            old(self).wf(),
        ensures
            final(self).wf(),
            final(self)@ == old(self)@.without(id),
            helper_views(final(out)@) == helper_views(old(out)@) + old(self)@.stop(id),
    {
        let ghost before = self@;
        let ghost listed = helper_views(out@);
        match self.streams.remove(&id) {
            Some(_) => {
                out.push(HelperAction::Stop { stream_id: id });
            },
            None => {},
        }
        assert(self@.streams =~= before.without(id).streams);
        assert(helper_views(out@) =~= listed + before.stop(id));
    }

    /// Takes a stream out, stops it and tells the client.
    fn end_stream(&mut self, id: StreamId, last: Frame) -> (r: Vec<HelperAction>)
        requires
            old(self).wf(),
        ensures
            final(self).wf(),
            final(self)@ == old(self)@.without(id),
            helper_views(r@) == old(self)@.stop(id).push(send(last@)),
    {
        let ghost before = self@;
        let ghost f = last@;
        let mut out: Vec<HelperAction> = Vec::new();
        self.remove_stream(id, &mut out);
        assert(helper_views(out@) =~= before.stop(id));
        out.push(HelperAction::Send(last));
        assert(helper_views(out@) =~= before.stop(id).push(send(f)));
        out
    }

    /// Drops a stream that has finished.
    fn maybe_cleanup_finished(&mut self, id: StreamId, out: &mut Vec<HelperAction>)
        requires
            old(self).wf(),
        ensures
            final(self).wf(),
            final(self)@ == old(self)@.cleaned(id),
            helper_views(final(out)@) == helper_views(old(out)@) + old(self)@.cleaning(id),
    {
        let done: bool = match self.streams.get(&id) {
            Some(s) => s.ingress_fin && s.egress_done && s.tx.is_fully_acked(),
            None => false,
        };
        if done {
            self.remove_stream(id, out);
        } else {
            assert(helper_views(out@) =~= helper_views(out@) + self@.cleaning(id));
        }
    }

    /// Ends all streams, in no particular order.
    pub fn close_all(&mut self) -> (r: Vec<HelperAction>)
        requires
            old(self).wf(),
        ensures
            final(self).wf(),
            final(self)@ == (HelperView { streams: Map::empty(), ..old(self)@ }),
            exists|ids: Seq<u32>|
                ids.no_duplicates() && #[trigger] ids.to_set() == old(self)@.streams.dom()
                    && helper_views(r@) == stops(ids),
    {
        let mut out: Vec<HelperAction> = Vec::new();
        let keys = self.streams.keys();
        let ghost all = keys.remaining().unref();
        for id in it: keys
            invariant
                it.seq().unref() == all,
                helper_views(out@) == stops(all.take(it.index() as int)),
        {
            let ghost listed = helper_views(out@);
            let ghost n = it.index();
            out.push(HelperAction::Stop { stream_id: *id });
            proof {
                assert(stops(all.take(n + 1)) =~= listed.push(
                    HelperActionView::Stop { stream_id: *id },
                ));
                assert(helper_views(out@) =~= stops(all.take(n + 1)));
            }
        }
        proof {
            assert(all.take(all.len() as int) =~= all);
            assert(self@.streams.dom() =~= self.streams@.dom());
            assert(all.to_set() == self@.streams.dom());
        }
        self.streams.clear();
        assert(self@.streams =~= Map::empty());
        out
    }

    /// Takes a handshake.
    fn handle_hello(&mut self, version: u8, requested: SessionId, resume: bool) -> (r: (
        Vec<HelperAction>,
        bool,
    ))
        requires
            old(self).wf(),
        ensures
            final(self).wf(),
            ({
                let f = FrameView::Hello { version, session_id: requested@, resume };
                &&& final(self)@ == old(self)@.after(f)
                &&& old(self)@.answers(f, helper_views(r.0@))
                &&& r.1 == !HelperView::ends(f)
            }),
    {
        let ghost before = self@;
        let mut out: Vec<HelperAction> = Vec::new();
        let mut resumed: bool = false;
        if version == PROTO_VERSION {
            let same: bool = match &self.session_id {
                Some(id) => ct_eq(id.as_slice(), requested.as_slice()),
                None => false,
            };
            resumed = resume && same && self.stream_count() > 0;
            if !resumed {
                out = self.close_all();
                self.session_id = Some(requested);
            }
        }
        let ghost listed = helper_views(out@);
        let ghost ack = FrameView::HelloAck {
            version: PROTO_VERSION,
            session_id: requested@,
            resumed,
        };
        out.push(
            HelperAction::Send(
                Frame::HelloAck { version: PROTO_VERSION, session_id: requested, resumed },
            ),
        );
        proof {
            assert(helper_views(out@) =~= listed.push(send(ack)));
            if version != PROTO_VERSION || resumed {
                assert(helper_views(out@) =~= seq![send(ack)]);
            }
        }
        (out, version == PROTO_VERSION)
    }

    /// Takes a request for a new stream.
    fn handle_open(&mut self, stream_id: StreamId, addr: TargetAddr) -> (r: Vec<HelperAction>)
        requires
            old(self).wf(),
        ensures
            final(self).wf(),
            final(self)@ == old(self)@.after(FrameView::Open { stream_id, addr: addr@ }),
            helper_views(r@) == old(self)@.actions(FrameView::Open { stream_id, addr: addr@ }),
    {
        let ghost before = self@;
        let ghost target = addr@;
        let mut out: Vec<HelperAction> = Vec::new();
        if self.streams.contains_key(&stream_id) {
            out.push(
                HelperAction::Send(
                    Frame::OpenErr {
                        stream_id,
                        code: ResetCode::Internal,
                        msg: "duplicate stream id".to_owned(),
                    },
                ),
            );
        } else if self.stream_count() >= self.config.max_streams {
            out.push(
                HelperAction::Send(
                    Frame::OpenErr {
                        stream_id,
                        code: ResetCode::Internal,
                        msg: "too many streams".to_owned(),
                    },
                ),
            );
        } else if !self.config.allow.permits(&addr) {
            out.push(
                HelperAction::Send(
                    Frame::OpenErr {
                        stream_id,
                        code: ResetCode::Forbidden,
                        msg: "target rejected by allow list".to_owned(),
                    },
                ),
            );
        } else {
            let st = EgressStream {
                recv: RecvTracker::new(),
                tx: SendBuffer::new(self.config.stream_window),
                egress_done: false,
                ingress_fin: false,
            };
            let ghost fresh = st@;
            self.streams.insert(stream_id, st);
            out.push(HelperAction::Spawn { stream_id, addr });
            assert(fresh == EgressView::fresh(before.limits.window));
        }
        proof {
            let f = FrameView::Open { stream_id, addr: target };
            assert(self@.streams =~= before.after(f).streams);
            assert(helper_views(out@) =~= before.actions(f));
        }
        out
    }

    /// Takes data of the client.
    fn handle_data(&mut self, stream_id: StreamId, offset: u64, data: Bytes) -> (r: Vec<
        HelperAction,
    >)
        requires
            old(self).wf(),
            old(self)@.countable(FrameView::Data { stream_id, offset, data: content(data) }),
        ensures
            final(self).wf(),
            ({
                let f = FrameView::Data { stream_id, offset, data: content(data) };
                final(self)@ == old(self)@.after(f) && helper_views(r@) == old(self)@.actions(f)
            }),
    {
        let ghost before = self@;
        let ghost f = FrameView::Data { stream_id, offset, data: content(data) };
        let mut out: Vec<HelperAction> = Vec::new();
        let mut broken: bool = false;
        match self.stream_mut(stream_id) {
            None => {
                out.push(
                    HelperAction::Send(
                        Frame::Reset { stream_id, code: ResetCode::UnknownStream },
                    ),
                );
            },
            Some(st) => {
                match st.recv.accept(offset, data) {
                    Ok(Some(bytes)) => {
                        let delivered: u64 = st.recv.delivered();
                        out.push(
                            HelperAction::Hand {
                                stream_id,
                                item: Downlink::Data { bytes, delivered },
                            },
                        );
                    },
                    Ok(None) => {
                        let delivered: u64 = st.recv.delivered();
                        out.push(
                            HelperAction::Hand {
                                stream_id,
                                item: Downlink::Duplicate { delivered },
                            },
                        );
                    },
                    Err(_) => {
                        broken = true;
                    },
                }
            },
        }
        if broken {
            out = self.end_stream(
                stream_id,
                Frame::Reset { stream_id, code: ResetCode::Internal },
            );
        }
        proof {
            assert(self@.streams =~= before.after(f).streams);
            assert(helper_views(out@) =~= before.actions(f));
        }
        out
    }

    /// Takes an acknowledgement.
    fn handle_ack(&mut self, stream_id: StreamId, offset: u64) -> (r: Vec<HelperAction>)
        requires
            old(self).wf(),
        ensures
            final(self).wf(),
            final(self)@ == old(self)@.after(FrameView::Ack { stream_id, offset }),
            helper_views(r@) == old(self)@.actions(FrameView::Ack { stream_id, offset }),
    {
        let ghost before = self@;
        let ghost f = FrameView::Ack { stream_id, offset };
        let mut out: Vec<HelperAction> = Vec::new();
        let mut broken: bool = false;
        match self.stream_mut(stream_id) {
            None => {
                assert(helper_views(out@) =~= before.actions(f));
                return out;
            },
            Some(st) => {
                match st.tx.ack(offset) {
                    Ok(()) => {},
                    Err(_) => {
                        broken = true;
                    },
                }
            },
        }
        if broken {
            out = self.end_stream(
                stream_id,
                Frame::Reset { stream_id, code: ResetCode::Internal },
            );
        } else {
            out.push(HelperAction::Wake { stream_id });
            self.maybe_cleanup_finished(stream_id, &mut out);
        }
        proof {
            assert(self@.streams =~= before.after(f).streams);
            assert(helper_views(out@) =~= before.actions(f));
        }
        out
    }

    /// Takes the end of the client's writing.
    fn handle_fin(&mut self, stream_id: StreamId) -> (r: Vec<HelperAction>)
        requires
            old(self).wf(),
        ensures
            final(self).wf(),
            final(self)@ == old(self)@.after(FrameView::Fin { stream_id }),
            helper_views(r@) == old(self)@.actions(FrameView::Fin { stream_id }),
    {
        let ghost before = self@;
        let ghost f = FrameView::Fin { stream_id };
        let mut out: Vec<HelperAction> = Vec::new();
        match self.stream_mut(stream_id) {
            None => {
                out.push(
                    HelperAction::Send(
                        Frame::Reset { stream_id, code: ResetCode::UnknownStream },
                    ),
                );
                assert(helper_views(out@) =~= before.actions(f));
                return out;
            },
            Some(st) => {
                if !st.ingress_fin {
                    st.ingress_fin = true;
                    st.recv.mark_fin();
                    out.push(HelperAction::Hand { stream_id, item: Downlink::Fin });
                }
            },
        }
        assert(self@.streams =~= before.ingress_ended(stream_id).streams);
        self.maybe_cleanup_finished(stream_id, &mut out);
        proof {
            assert(self@.streams =~= before.after(f).streams);
            assert(helper_views(out@) =~= before.actions(f));
        }
        out
    }

    /// Takes a request to go on with a stream.
    fn handle_resume(&mut self, stream_id: StreamId, recv_offset: u64) -> (r: Vec<HelperAction>)
        requires
            old(self).wf(),
        ensures
            final(self).wf(),
            final(self)@ == old(self)@.after(FrameView::Resume { stream_id, recv_offset }),
            helper_views(r@) == old(self)@.actions(FrameView::Resume { stream_id, recv_offset }),
    {
        let ghost before = self@;
        let ghost f = FrameView::Resume { stream_id, recv_offset };
        let mut out: Vec<HelperAction> = Vec::new();
        let mut broken: bool = false;
        match self.stream_mut(stream_id) {
            None => {
                out.push(
                    HelperAction::Send(
                        Frame::ResumeErr { stream_id, code: ResetCode::UnknownStream },
                    ),
                );
            },
            Some(st) => {
                match st.tx.rewind_to(recv_offset) {
                    Ok(_) => {
                        let received: u64 = st.recv.delivered();
                        out.push(HelperAction::Wake { stream_id });
                        out.push(
                            HelperAction::Send(
                                Frame::ResumeOk { stream_id, recv_offset: received },
                            ),
                        );
                    },
                    Err(_) => {
                        broken = true;
                    },
                }
            },
        }
        if broken {
            out = self.end_stream(
                stream_id,
                Frame::ResumeErr { stream_id, code: ResetCode::ResumeImpossible },
            );
        }
        proof {
            assert(self@.streams =~= before.after(f).streams);
            assert(helper_views(out@) =~= before.actions(f));
        }
        out
    }

    /// Takes a frame of the client. Gives what is to be done, and whether the
    /// session goes on after that.
    pub fn handle_frame(&mut self, frame: Frame) -> (r: (Vec<HelperAction>, bool))
        requires
            old(self).wf(),
            old(self)@.countable(frame@),
        ensures
            final(self).wf(),
            final(self)@ == old(self)@.after(frame@),
            old(self)@.answers(frame@, helper_views(r.0@)),
            r.1 == !HelperView::ends(frame@),
    {
        let ghost before = self@;
        let mut out: Vec<HelperAction> = Vec::new();
        match frame {
            Frame::Hello { version, session_id, resume } => self.handle_hello(
                version,
                session_id,
                resume,
            ),
            Frame::Open { stream_id, addr } => (self.handle_open(stream_id, addr), true),
            Frame::Data { stream_id, offset, data } => (
                self.handle_data(stream_id, offset, data),
                true,
            ),
            Frame::Ack { stream_id, offset } => (self.handle_ack(stream_id, offset), true),
            Frame::Fin { stream_id } => (self.handle_fin(stream_id), true),
            Frame::Reset { stream_id, code } => {
                self.remove_stream(stream_id, &mut out);
                assert(helper_views(out@) =~= before.stop(stream_id));
                (out, true)
            },
            Frame::Resume { stream_id, recv_offset } => (
                self.handle_resume(stream_id, recv_offset),
                true,
            ),
            Frame::Ping { nonce } => {
                out.push(HelperAction::Send(Frame::Pong { nonce }));
                assert(helper_views(out@) =~= seq![send(FrameView::Pong { nonce })]);
                (out, true)
            },
            _ => {
                assert(helper_views(out@) =~= Seq::<HelperActionView>::empty());
                (out, true)
            },
        }
    }

    /// Takes the report of a stream.
    pub fn handle_stream_event(&mut self, event: StreamEvent) -> (r: Vec<HelperAction>)
        requires
            old(self).wf(),
        ensures
            final(self).wf(),
            match event {
                StreamEvent::EgressDone(id) => final(self)@ == old(self)@.egress_ended(id).cleaned(
                    id,
                ) && helper_views(r@) == old(self)@.egress_ended(id).cleaning(id),
                StreamEvent::Failed { stream_id, reset } => final(self)@ == old(self)@.without(
                    stream_id,
                ) && helper_views(r@) == old(self)@.stop(stream_id) + (match reset {
                    Some(code) => seq![send(FrameView::Reset { stream_id, code })],
                    None => seq![],
                }),
            },
    {
        let ghost before = self@;
        let mut out: Vec<HelperAction> = Vec::new();
        match event {
            StreamEvent::EgressDone(id) => {
                match self.stream_mut(id) {
                    Some(st) => {
                        st.egress_done = true;
                    },
                    None => {},
                }
                assert(self@ == before.egress_ended(id));
                self.maybe_cleanup_finished(id, &mut out);
                assert(helper_views(out@) =~= before.egress_ended(id).cleaning(id));
            },
            StreamEvent::Failed { stream_id, reset } => {
                self.remove_stream(stream_id, &mut out);
                match reset {
                    Some(code) => {
                        out.push(HelperAction::Send(Frame::Reset { stream_id, code }));
                    },
                    None => {},
                }
                assert(helper_views(out@) =~= before.stop(stream_id) + (match reset {
                    Some(code) => seq![send(FrameView::Reset { stream_id, code })],
                    None => seq![],
                }));
            },
        }
        out
    }

    /// A stream no longer takes what it is handed.
    pub fn handover_failed(&mut self, stream_id: StreamId) -> (r: Vec<HelperAction>)
        requires
            old(self).wf(),
        ensures
            final(self).wf(),
            final(self)@ == old(self)@.without(stream_id),
            helper_views(r@) == old(self)@.stop(stream_id).push(
                send(FrameView::Reset { stream_id, code: ResetCode::Internal }),
            ),
    {
        self.end_stream(stream_id, Frame::Reset { stream_id, code: ResetCode::Internal })
    }

    /// Takes the next frame out of the bytes of the client, and says what it
    /// calls for. The actions are to be done before the next call.
    pub fn poll(&mut self, inbound: &mut BytesMut) -> (r: HelperStep)
        requires
            old(self).wf(),
            old(self)@.countable_next(buffered(*old(inbound))),
        ensures
            final(self).wf(),
            buffered(*final(inbound)) == buffered(*old(inbound)).skip(
                decode_consumed(buffered(*old(inbound))) as int,
            ),
            match decode_result(buffered(*old(inbound))) {
                Ok(Some(f)) => {
                    &&& final(self)@ == old(self)@.after(f)
                    &&& if HelperView::ends(f) {
                        r matches HelperStep::Stop(a) && old(self)@.answers(f, helper_views(a@))
                    } else {
                        r matches HelperStep::Continue(a) && old(self)@.answers(
                            f,
                            helper_views(a@),
                        )
                    }
                },
                Ok(None) => r == HelperStep::Wait && final(self)@ == old(self)@,
                Err(e) => r == HelperStep::Broken(e) && final(self)@ == old(self)@,
            },
    {
        match Frame::decode(inbound) {
            Ok(Some(frame)) => {
                let (actions, go_on) = self.handle_frame(frame);
                if go_on {
                    HelperStep::Continue(actions)
                } else {
                    HelperStep::Stop(actions)
                }
            },
            Ok(None) => HelperStep::Wait,
            Err(e) => HelperStep::Broken(e),
        }
    }
}

impl HelperView {
    /// The session after a stream's target has ended for good.
    pub open spec fn egress_ended(self, id: u32) -> HelperView {
        if self.streams.contains_key(id) {
            self.with(id, EgressView { egress_done: true, ..self.streams[id] })
        } else {
            self
        }
    }
}

/// What the bytes of the client call for.
#[derive(Debug, PartialEq, Eq)]
pub enum HelperStep {
    /// More bytes.
    Wait,
    /// The actions, and then to go on.
    Continue(Vec<HelperAction>),
    /// The actions, and then to end.
    Stop(Vec<HelperAction>),
    /// To end with an error: the bytes are no frames.
    Broken(ProtoError),
}

/// Whether no frame can carry a stream's byte count beyond 64 bits.
pub open spec fn countable(v: HelperView) -> bool {
    forall|id: u32| #[trigger]
        v.streams.contains_key(id) ==> v.streams[id].recv.delivered + MAX_FRAME_PAYLOAD <= u64::MAX
}

/// Where every stream has room for a whole frame, whatever bytes arrive can be
/// counted.
pub proof fn law_room_for_a_frame_suffices(v: HelperView, s: Seq<u8>)
    requires
        countable(v),
    ensures
        v.countable_next(s),
{
}

/// A helper claims to have resumed a session only where it is the same one,
/// the client asked for it, and there are streams to go on with. In every
/// other handshake no stream of before is left.
pub proof fn law_handshake_never_pretends(v: HelperView, session_id: Seq<u8>, resume: bool)
    ensures
        ({
            let f = FrameView::Hello { version: PROTO_VERSION, session_id, resume };
            if v.resumes(session_id, resume) {
                resume && v.session == Some(session_id) && v.streams.dom().len() > 0 && v.after(f)
                    == v
            } else {
                v.after(f).streams == Map::<u32, EgressView>::empty() && v.after(f).session
                    == Some(session_id)
            }
        }),
{
}

/// No frame makes the helper hold more streams than it may.
pub proof fn law_stream_limit_is_kept(v: HelperView, f: FrameView)
    requires
        v.streams.dom().finite(),
        v.streams.dom().len() <= v.limits.max_streams,
    ensures
        v.after(f).streams.dom().finite(),
        v.after(f).streams.dom().len() <= v.limits.max_streams,
        v.after(f).limits == v.limits,
{
    match f {
        FrameView::Open { stream_id, addr } => {
            assert(v.after(f).streams.dom() =~= if v.refusal(stream_id, addr) is Some {
                v.streams.dom()
            } else {
                v.streams.dom().insert(stream_id)
            });
        },
        _ => {
            let id = match f.stream_id() {
                Some(id) => id,
                None => 0,
            };
            assert(v.after(f).streams.dom().subset_of(v.streams.dom()));
            vstd::set_lib::lemma_len_subset(v.after(f).streams.dom(), v.streams.dom());
        },
    }
}

/// A stream is connected only to a target that the allow list permits.
pub proof fn law_only_permitted_targets_are_connected(v: HelperView, f: FrameView, i: int)
    requires
        !(f is Hello),
        0 <= i < v.actions(f).len(),
        v.actions(f)[i] is Spawn,
    ensures
        v.actions(f)[i] matches HelperActionView::Spawn { addr, .. } && permitted(
            v.limits.allow,
            addr,
        ),
{
}

/// A frame changes no stream but its own, unless it is a handshake.
pub proof fn law_frame_touches_only_its_stream(v: HelperView, f: FrameView, other: u32)
    requires
        !(f is Hello),
        f.stream_id() != Some(other),
    ensures
        v.after(f).streams.contains_key(other) == v.streams.contains_key(other),
        v.after(f).streams[other] == v.streams[other],
{
}

/// A resumed stream sends exactly the bytes that the client lacks, and tells
/// the client how far its own data has come.
pub proof fn law_resume_goes_on_from_the_gap(v: HelperView, id: u32, recv_offset: u64)
    requires
        v.streams.contains_key(id),
        v.streams[id].tx.valid(),
        v.streams[id].tx.acked <= recv_offset <= v.streams[id].tx.end(),
    ensures
        ({
            let f = FrameView::Resume { stream_id: id, recv_offset };
            let tx = v.streams[id].tx;
            let after = v.after(f).streams[id].tx;
            &&& after.cursor == recv_offset
            &&& after.end() == tx.end()
            &&& after.unacked == tx.unacked.skip(recv_offset - tx.acked)
            &&& v.actions(f).last() == send(
                FrameView::ResumeOk {
                    stream_id: id,
                    recv_offset: v.streams[id].recv.delivered as u64,
                },
            )
        }),
{
    let tx = v.streams[id].tx;
    assert(tx.unacked.skip(0) =~= tx.unacked);
}

/// The end of the client's writing closes one direction only: unless the other
/// is through as well, the stream stays, and what the target has written and
/// will write still goes to the client.
pub proof fn law_fin_is_a_half_close(v: HelperView, id: u32)
    requires
        v.streams.contains_key(id),
        !(v.streams[id].egress_done && v.streams[id].tx.unacked.len() == 0),
    ensures
        ({
            let after = v.after(FrameView::Fin { stream_id: id });
            &&& after.streams.contains_key(id)
            &&& after.streams[id].ingress_fin
            &&& after.streams[id].tx == v.streams[id].tx
            &&& after.streams[id].egress_done == v.streams[id].egress_done
        }),
{
}

/// A frame for a stream that the helper does not know is answered and never
/// passed over, but for late acknowledgements and resets, which call for
/// nothing.
pub proof fn law_unknown_streams_are_answered(
    v: HelperView,
    id: u32,
    offset: u64,
    data: Seq<u8>,
    code: ResetCode,
)
    requires
        !v.streams.contains_key(id),
    ensures
        ({
            let reset = seq![
                send(FrameView::Reset { stream_id: id, code: ResetCode::UnknownStream }),
            ];
            &&& v.actions(FrameView::Data { stream_id: id, offset, data }) == reset
            &&& v.actions(FrameView::Fin { stream_id: id }) == reset
            &&& v.actions(FrameView::Resume { stream_id: id, recv_offset: offset }) == seq![
                send(FrameView::ResumeErr { stream_id: id, code: ResetCode::UnknownStream }),
            ]
            &&& v.actions(FrameView::Ack { stream_id: id, offset }).len() == 0
            &&& v.actions(FrameView::Reset { stream_id: id, code }).len() == 0
        }),
{
}

/// A client of another version is told so and its session ends; the streams
/// are left as they are.
pub proof fn law_other_versions_are_refused(
    v: HelperView,
    version: u8,
    session_id: Seq<u8>,
    resume: bool,
    actions: Seq<HelperActionView>,
)
    requires
        version != PROTO_VERSION,
        v.answers(FrameView::Hello { version, session_id, resume }, actions),
    ensures
        actions == seq![
            send(FrameView::HelloAck { version: PROTO_VERSION, session_id, resumed: false }),
        ],
        HelperView::ends(FrameView::Hello { version, session_id, resume }),
        v.after(FrameView::Hello { version, session_id, resume }) == v,
{
}

/// Data of the client: the new bytes go to the target with the count that they
/// bring it to, repeated ones are only acknowledged again, and data with a hole
/// in front of it ends the stream at both ends.
pub proof fn law_client_data_goes_to_the_target(
    v: HelperView,
    id: u32,
    offset: u64,
    data: Seq<u8>,
)
    requires
        v.streams.contains_key(id),
        offset + data.len() <= u64::MAX,
    ensures
        ({
            let f = FrameView::Data { stream_id: id, offset, data };
            let s = v.streams[id];
            let end = (offset + data.len()) as u64;
            if offset > s.recv.delivered {
                &&& v.after(f) == (HelperView { streams: v.streams.remove(id), ..v })
                &&& v.actions(f) == seq![
                    HelperActionView::Stop { stream_id: id },
                    HelperActionView::Send(
                        FrameView::Reset { stream_id: id, code: ResetCode::Internal },
                    ),
                ]
            } else if end <= s.recv.delivered {
                &&& v.after(f).streams =~= v.streams
                &&& v.actions(f) == seq![
                    HelperActionView::Hand {
                        stream_id: id,
                        item: DownlinkView::Duplicate { delivered: s.recv.delivered as u64 },
                    },
                ]
            } else {
                &&& v.after(f) == (HelperView {
                    streams: v.streams.insert(
                        id,
                        EgressView { recv: RecvView { delivered: end as nat, ..s.recv }, ..s },
                    ),
                    ..v
                })
                &&& v.actions(f) == seq![
                    HelperActionView::Hand {
                        stream_id: id,
                        item: DownlinkView::Data {
                            bytes: data.skip(s.recv.delivered - offset),
                            delivered: end,
                        },
                    },
                ]
            }
        }),
{
}

/// A stream is opened exactly when its number is free, there is room for one
/// more and the allow list permits its target: it starts empty, and the target
/// is connected. Otherwise the client is told why not, and nothing changes.
pub proof fn law_opening_is_granted_or_refused(v: HelperView, id: u32, addr: AddrView)
    ensures
        ({
            let f = FrameView::Open { stream_id: id, addr };
            let free = !v.streams.contains_key(id);
            let room = v.streams.dom().len() < v.limits.max_streams;
            let allowed = permitted(v.limits.allow, addr);
            let s = v.after(f).streams[id];
            if free && room && allowed {
                &&& v.actions(f) == seq![HelperActionView::Spawn { stream_id: id, addr }]
                &&& v.after(f) == (HelperView { streams: v.streams.insert(id, s), ..v })
                &&& s.recv.delivered == 0 && s.recv.fin_at is None
                &&& s.tx.acked == 0 && s.tx.cursor == 0 && s.tx.unacked.len() == 0
                &&& s.tx.capacity == v.limits.window && !s.tx.fin_queued
                &&& !s.egress_done && !s.ingress_fin
            } else {
                &&& v.after(f) == v
                &&& v.actions(f).len() == 1
                &&& v.actions(f)[0] is Send
                &&& v.actions(f)[0]->Send_0 is OpenErr
                &&& v.actions(f)[0]->Send_0->OpenErr_stream_id == id
                &&& v.actions(f)[0]->Send_0->OpenErr_code == if free && room {
                    ResetCode::Forbidden
                } else {
                    ResetCode::Internal
                }
            }
        }),
{
}

/// An acknowledgement of written bytes releases them and lets the stream look
/// again; one of bytes that were never written ends the stream at both ends.
/// A stream that is through in both directions goes with its last one.
pub proof fn law_client_acks_release_or_end(v: HelperView, id: u32, offset: u64)
    requires
        v.streams.contains_key(id),
        v.streams[id].tx.valid(),
    ensures
        ({
            let f = FrameView::Ack { stream_id: id, offset };
            let s = v.streams[id];
            let end = s.tx.acked + s.tx.unacked.len();
            if offset > end {
                &&& v.after(f) == (HelperView { streams: v.streams.remove(id), ..v })
                &&& v.actions(f) == seq![
                    HelperActionView::Stop { stream_id: id },
                    HelperActionView::Send(
                        FrameView::Reset { stream_id: id, code: ResetCode::Internal },
                    ),
                ]
            } else if s.ingress_fin && s.egress_done && (offset == end || s.tx.acked == end) {
                &&& v.after(f).streams =~= v.streams.remove(id)
                &&& v.actions(f) =~= seq![
                    HelperActionView::Wake { stream_id: id },
                    HelperActionView::Stop { stream_id: id },
                ]
            } else {
                let t = v.after(f).streams[id];
                &&& v.after(f).streams =~= v.streams.insert(id, t)
                &&& v.actions(f) =~= seq![HelperActionView::Wake { stream_id: id }]
                &&& t == (EgressView { tx: t.tx, ..s })
                &&& t.tx.acked == vstd::math::max(s.tx.acked as int, offset as int)
                &&& t.tx.acked + t.tx.unacked.len() == end
                &&& t.tx.unacked =~= s.tx.unacked.skip(t.tx.acked - s.tx.acked)
            }
        }),
{
}

/// The end of the client's writing is handed to the target, once. The stream
/// goes with it only where the other direction was through.
pub proof fn law_client_fin_reaches_the_target(v: HelperView, id: u32)
    requires
        v.streams.contains_key(id),
    ensures
        ({
            let f = FrameView::Fin { stream_id: id };
            let s = v.streams[id];
            let over = s.egress_done && s.tx.unacked.len() == 0;
            &&& v.actions(f) =~= (if s.ingress_fin {
                seq![]
            } else {
                seq![HelperActionView::Hand { stream_id: id, item: DownlinkView::Fin }]
            }) + (if over {
                seq![HelperActionView::Stop { stream_id: id }]
            } else {
                seq![]
            })
            &&& over ==> v.after(f).streams =~= v.streams.remove(id)
            &&& !over ==> {
                let t = v.after(f).streams[id];
                &&& v.after(f).streams =~= v.streams.insert(id, t)
                &&& t.ingress_fin
                &&& t.tx == s.tx && t.egress_done == s.egress_done
                &&& t.recv.delivered == s.recv.delivered
            }
        }),
{
}

/// A stream that the client gives up is stopped and forgotten.
pub proof fn law_client_resets_stop_the_stream(v: HelperView, id: u32, code: ResetCode)
    requires
        v.streams.contains_key(id),
    ensures
        ({
            let f = FrameView::Reset { stream_id: id, code };
            &&& v.actions(f) == seq![HelperActionView::Stop { stream_id: id }]
            &&& v.after(f) == (HelperView { streams: v.streams.remove(id), ..v })
        }),
{
}

/// A stream that the client wants to go on with goes back to where the client
/// stands and is woken, where it still holds the bytes from there on. Where it
/// does not, it ends, and the client is told.
pub proof fn law_resume_requests_are_answered(v: HelperView, id: u32, recv_offset: u64)
    requires
        v.streams.contains_key(id),
        v.streams[id].tx.valid(),
    ensures
        ({
            let f = FrameView::Resume { stream_id: id, recv_offset };
            let s = v.streams[id];
            if s.tx.acked <= recv_offset <= s.tx.acked + s.tx.unacked.len() {
                let t = v.after(f).streams[id];
                &&& v.actions(f) == seq![
                    HelperActionView::Wake { stream_id: id },
                    HelperActionView::Send(
                        FrameView::ResumeOk {
                            stream_id: id,
                            recv_offset: s.recv.delivered as u64,
                        },
                    ),
                ]
                &&& v.after(f) == (HelperView { streams: v.streams.insert(id, t), ..v })
                &&& t == (EgressView { tx: t.tx, ..s })
                &&& t.tx.cursor == recv_offset
                &&& t.tx.acked == recv_offset
                &&& t.tx.unacked =~= s.tx.unacked.skip(recv_offset - s.tx.acked)
            } else {
                &&& v.actions(f) == seq![
                    HelperActionView::Stop { stream_id: id },
                    HelperActionView::Send(
                        FrameView::ResumeErr { stream_id: id, code: ResetCode::ResumeImpossible },
                    ),
                ]
                &&& v.after(f) == (HelperView { streams: v.streams.remove(id), ..v })
            }
        }),
{
}

/// A sign of life is answered with its number. What only a helper sends calls
/// for nothing. No frame but a handshake of another version ends the session.
pub proof fn law_other_client_frames(v: HelperView, f: FrameView)
    ensures
        f matches FrameView::Ping { nonce } ==> v.after(f) == v && v.actions(f) == seq![
            HelperActionView::Send(FrameView::Pong { nonce }),
        ],
        f is Pong || f is HelloAck || f is OpenOk || f is OpenErr || f is ResumeOk || f is ResumeErr
            ==> v.after(f) == v && v.actions(f).len() == 0,
        !(f is Hello) ==> !HelperView::ends(f),
        f matches FrameView::Hello { version, .. } ==> (HelperView::ends(f) <==> version
            != 1),
{
}

/// A handshake that does not resume stops every stream of before, each once,
/// and is told that nothing was resumed. One that does is told so, and stops
/// none.
pub proof fn law_handshakes_are_answered(
    v: HelperView,
    session_id: Seq<u8>,
    resume: bool,
    actions: Seq<HelperActionView>,
)
    requires
        v.answers(FrameView::Hello { version: 1, session_id, resume }, actions),
    ensures
        ({
            let kept = resume && v.session == Some(session_id) && v.streams.dom().len() > 0;
            let ack = HelperActionView::Send(
                FrameView::HelloAck { version: 1, session_id, resumed: kept },
            );
            let after = v.after(FrameView::Hello { version: 1, session_id, resume });
            if kept {
                actions == seq![ack] && after == v
            } else {
                &&& after == (HelperView {
                    session: Some(session_id),
                    streams: Map::empty(),
                    ..v
                })
                &&& actions.len() == v.streams.dom().len() + 1
                &&& actions.last() == ack
                &&& forall|id: u32| #[trigger]
                    v.streams.contains_key(id) ==> actions.contains(
                        HelperActionView::Stop { stream_id: id },
                    )
            }
        }),
{
    if !v.resumes(session_id, resume) {
        let ack = send(
            FrameView::HelloAck { version: PROTO_VERSION, session_id, resumed: false },
        );
        let ids = choose|ids: Seq<u32>|
            ids.no_duplicates() && #[trigger] ids.to_set() == v.streams.dom() && actions == stops(
                ids,
            ).push(ack);
        ids.unique_seq_to_set();
        assert forall|id: u32| #[trigger] v.streams.contains_key(id) implies actions.contains(
            HelperActionView::Stop { stream_id: id },
        ) by {
            assert(ids.to_set().contains(id));
            let i = choose|i: int| 0 <= i < ids.len() && ids[i] == id;
            assert(actions[i] == (HelperActionView::Stop { stream_id: id }));
        }
    }
}

/// A target that has ended for good takes its stream with it exactly when the
/// client has stopped writing as well and has acknowledged everything.
pub proof fn law_ended_targets_are_noted(v: HelperView, id: u32)
    requires
        v.streams.contains_key(id),
    ensures
        ({
            let s = v.streams[id];
            let over = s.ingress_fin && s.tx.unacked.len() == 0;
            let after = v.egress_ended(id).cleaned(id);
            let actions = v.egress_ended(id).cleaning(id);
            &&& over ==> after.streams =~= v.streams.remove(id) && actions == seq![
                HelperActionView::Stop { stream_id: id },
            ]
            &&& !over ==> after.streams =~= v.streams.insert(
                id,
                EgressView { egress_done: true, ..s },
            ) && actions.len() == 0
        }),
{
}

} // verus!
