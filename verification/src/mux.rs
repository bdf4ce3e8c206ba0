//! The client's side of the multiplexer: the streams of a session and what a
//! frame from the helper does to them.
//!
//! A stream outlives the SSH connections that carry it. Its sender keeps what
//! the peer has not acknowledged, its receiver delivers in order and drops
//! what it has seen, and after a reconnect both ends say how far they got.

use std::collections::hash_map::Entry;
use std::collections::HashMap;

use bytes::{Bytes, BytesMut};
use vstd::prelude::*;
use vstd::std_specs::iter::IteratorSpec;

use crate::addr::AddrView;
use crate::buf::{buffered, content};
use crate::frame::{frame_views, lemma_wire_all_push, wire_all, FrameView};
use crate::resume::{RecvView, SendView};
use crate::{
    Frame, ProtoError, RecvTracker, ResetCode, SendBuffer, StreamId, TargetAddr, DATA_CHUNK,
};

verus! {

broadcast use vstd::std_specs::hash::group_hash_axioms;

/// A stream, seen from the client.
pub struct StreamState {
    /// What goes from here to the helper.
    pub tx: SendBuffer,
    /// What comes from the helper.
    pub rx: RecvTracker,
    /// Where the stream leads.
    pub addr: TargetAddr,
    /// The helper has connected.
    pub opened: bool,
    /// The local side has stopped writing.
    pub local_fin: bool,
    /// The remote side has stopped writing.
    pub remote_fin: bool,
    /// The stream was ended, and why.
    pub reset: Option<ResetCode>,
}

/// What a stream stands for.
#[verifier::ext_equal]
pub struct StreamView {
    pub tx: SendView,
    pub rx: RecvView,
    pub addr: AddrView,
    pub opened: bool,
    pub local_fin: bool,
    pub remote_fin: bool,
    pub reset: Option<ResetCode>,
}

impl View for StreamState {
    type V = StreamView;

    open spec fn view(&self) -> StreamView {
        StreamView {
            tx: self.tx@,
            rx: self.rx@,
            addr: self.addr@,
            opened: self.opened,
            local_fin: self.local_fin,
            remote_fin: self.remote_fin,
            reset: self.reset,
        }
    }
}

impl StreamView {
    /// A stream that has only been asked for.
    pub open spec fn fresh(addr: AddrView, window: nat) -> StreamView {
        StreamView {
            tx: SendView {
                acked: 0,
                cursor: 0,
                capacity: window,
                unacked: seq![],
                fin_queued: false,
            },
            rx: RecvView { delivered: 0, fin_at: None },
            addr,
            opened: false,
            local_fin: false,
            remote_fin: false,
            reset: None,
        }
    }

    /// Whether nothing more will happen on the stream.
    pub open spec fn finished(self) -> bool {
        self.reset is Some || (self.local_fin && self.remote_fin && self.tx.unacked.len() == 0)
    }
}

impl StreamState {
    pub open spec fn wf(&self) -> bool {
        self.tx.wf()
    }

    /// A stream to `addr` that may hold `window` unacknowledged bytes.
    pub fn new(addr: TargetAddr, window: u64) -> (r: StreamState)
        requires
            window > 0,
        ensures
            r.wf(),
            r@ == StreamView::fresh(addr@, window as nat),
    {
        StreamState {
            tx: SendBuffer::new(window),
            rx: RecvTracker::new(),
            addr,
            opened: false,
            local_fin: false,
            remote_fin: false,
            reset: None,
        }
    }

    /// Whether the stream was ended, or has ended in both directions with all
    /// of its data acknowledged.
    pub fn is_finished(&self) -> (r: bool)
        requires
            self.wf(),
        ensures
            r == self@.finished(),
    {
        self.reset.is_some() || (self.local_fin && self.remote_fin && self.tx.is_fully_acked())
    }
}

/// How many bytes make an acknowledgement due at once.
pub const ACK_THRESHOLD: u64 = 64 * 1024;

/// The streams of a session.
pub struct MuxState {
    streams: HashMap<StreamId, StreamState>,
    next_id: StreamId,
    window: u64,
}

/// What the streams of a session stand for.
#[verifier::ext_equal]
pub struct MuxView {
    pub streams: Map<u32, StreamView>,
    pub next_id: u32,
    pub window: nat,
}

impl View for MuxState {
    type V = MuxView;

    open spec fn view(&self) -> MuxView {
        MuxView {
            streams: self.table().map_values(|s: StreamState| s@),
            next_id: self.first_candidate(),
            window: self.stream_window(),
        }
    }
}

/// How many steps lead from one number up to another, counting round.
pub open spec fn steps(from: u32, to: u32) -> nat {
    if from <= to {
        (to - from) as nat
    } else {
        (0x1_0000_0000 + to - from) as nat
    }
}

/// The number after that one, counting round.
pub open spec fn following(id: u32) -> u32 {
    if id == u32::MAX {
        0
    } else {
        (id + 1) as u32
    }
}

/// One step on is one step nearer to a number that lies ahead.
proof fn lemma_step_on(from: u32, at: u32, target: u32)
    requires
        at != target,
        steps(from, at) <= steps(from, target),
    ensures
        steps(from, following(at)) == steps(from, at) + 1,
        steps(from, following(at)) <= steps(from, target),
        steps(following(at), target) < steps(at, target),
        forall|j: u32|
            #![trigger steps(from, j)]
            steps(from, j) < steps(from, following(at)) ==> steps(from, j) < steps(from, at) || j
                == at,
{
}

impl MuxView {
    /// Whether a new stream can have the number. 0 is for frames that belong
    /// to no stream.
    pub open spec fn free(self, id: u32) -> bool {
        id != 0 && !self.streams.contains_key(id)
    }

    /// Whether `id` is the number that a new stream gets: the first free one,
    /// counting on from the last that was given.
    pub open spec fn allocates(self, id: u32) -> bool {
        &&& self.free(id)
        &&& forall|j: u32|
            #![trigger self.free(j)]
            steps(self.next_id, j) < steps(self.next_id, id) ==> !self.free(j)
    }

    /// The streams with a new one of that number.
    pub open spec fn with_new(self, id: u32, addr: AddrView) -> MuxView {
        MuxView {
            streams: self.streams.insert(id, StreamView::fresh(addr, self.window)),
            next_id: following(id),
            window: self.window,
        }
    }

    /// The same streams but for that one.
    pub open spec fn with(self, id: u32, s: StreamView) -> MuxView {
        MuxView { streams: self.streams.insert(id, s), ..self }
    }

    /// The streams without that one.
    pub open spec fn without(self, id: u32) -> MuxView {
        MuxView { streams: self.streams.remove(id), ..self }
    }

    /// The streams after one was ended, if there is one of that number.
    pub open spec fn with_reset(self, id: u32, code: ResetCode) -> MuxView {
        if self.streams.contains_key(id) {
            self.with(id, StreamView { reset: Some(code), ..self.streams[id] })
        } else {
            self
        }
    }
}

/// What the numbers from 1 to `n` are.
spec fn ids_up_to(n: nat) -> Set<u32>
    decreases n,
{
    if n == 0 {
        Set::empty()
    } else {
        ids_up_to((n - 1) as nat).insert(n as u32)
    }
}

proof fn lemma_ids_up_to(n: nat)
    requires
        n <= u32::MAX,
    ensures
        ids_up_to(n).finite(),
        ids_up_to(n).len() == n,
        forall|id: u32| ids_up_to(n).contains(id) <==> 1 <= id <= n,
    decreases n,
{
    if n > 0 {
        lemma_ids_up_to((n - 1) as nat);
    }
}

/// Among fewer streams than there are numbers, one number is free.
proof fn lemma_some_id_is_free(m: MuxView)
    requires
        m.streams.dom().finite(),
        m.streams.dom().len() < u32::MAX,
    ensures
        exists|id: u32| m.free(id),
{
    if forall|id: u32| !m.free(id) {
        lemma_ids_up_to(u32::MAX as nat);
        assert forall|id: u32| ids_up_to(u32::MAX as nat).contains(id) implies m.streams.dom().contains(
            id,
        ) by {
            assert(!m.free(id));
        }
        vstd::set_lib::lemma_len_subset(ids_up_to(u32::MAX as nat), m.streams.dom());
        assert(false);
    }
}

impl MuxState {
    /// The streams themselves.
    pub closed spec fn table(&self) -> Map<u32, StreamState> {
        self.streams@
    }

    /// The number that a new stream is offered first.
    pub closed spec fn first_candidate(&self) -> u32 {
        self.next_id
    }

    /// How many unacknowledged bytes each stream may hold.
    pub closed spec fn stream_window(&self) -> nat {
        self.window as nat
    }

    pub open spec fn wf(&self) -> bool {
        &&& self@.window > 0
        &&& self.table().dom().finite()
        &&& forall|id: u32| #[trigger]
            self.table().contains_key(id) ==> id != 0 && self.table()[id].wf()
    }

    /// No streams yet.
    pub fn new(window: u64) -> (r: MuxState)
        requires
            window > 0,
        ensures
            r.wf(),
            r@ == (MuxView { streams: Map::empty(), next_id: 1, window: window as nat }),
    {
        let r = MuxState { streams: HashMap::new(), next_id: 1, window };
        assert(r@.streams =~= Map::empty());
        r
    }

    /// Adds a stream to `addr` and gives its number: the first free one,
    /// counting on from the last that was given.
    pub fn alloc_stream(&mut self, addr: TargetAddr) -> (id: StreamId)
        requires
            old(self).wf(),
            old(self)@.streams.dom().len() < u32::MAX,
        ensures
            final(self).wf(),
            old(self)@.allocates(id),
            final(self)@ == old(self)@.with_new(id, addr@),
    {
        let ghost before = *self;
        proof {
            assert(self@.streams.dom() =~= self.streams@.dom());
            lemma_some_id_is_free(self@);
        }
        let ghost target = choose|id: u32| self@.free(id);
        loop
            invariant
                self.streams@ == before.streams@,
                self.window == before.window,
                before.wf(),
                *old(self) == before,
                before@.free(target),
                steps(before.next_id, self.next_id) <= steps(before.next_id, target),
                forall|j: u32|
                    #![trigger before@.free(j)]
                    steps(before.next_id, j) < steps(before.next_id, self.next_id)
                        ==> !before@.free(j),
            decreases steps(self.next_id, target),
        {
            let id: u32 = self.next_id;
            self.next_id = if id == u32::MAX {
                0
            } else {
                id + 1
            };
            if id == 0 || self.streams.contains_key(&id) {
                assert(!before@.free(id));
                proof {
                    lemma_step_on(before.next_id, id, target);
                }
                continue;
            }
            let st = StreamState::new(addr, self.window);
            let ghost fresh = st;
            self.streams.insert(id, st);
            proof {
                assert(before@.free(id));
                assert(self@.streams =~= before@.streams.insert(id, fresh@));
            }
            return id;
        }
    }

    /// The stream of that number, to be changed.
    pub fn get_mut(&mut self, id: StreamId) -> (r: Option<&mut StreamState>)
        ensures
            match r {
                Some(st) => {
                    &&& old(self).table().contains_key(id)
                    &&& *st == old(self).table()[id]
                    &&& final(self).table() == old(self).table().insert(id, *final(st))
                    &&& final(self)@ == old(self)@.with(id, (*final(st))@)
                },
                None => !old(self).table().contains_key(id) && final(self).table() == old(
                    self,
                ).table() && final(self)@ == old(self)@,
            },
    {
        let ghost before = self.streams@;
        match self.streams.entry(id) {
            Entry::Occupied(e) => {
                let st = e.into_mut();
                proof {
                    let after = before.insert(id, *final(st));
                    assert(after.map_values(|s: StreamState| s@) =~= before.map_values(
                        |s: StreamState| s@,
                    ).insert(id, (*final(st))@));
                }
                Some(st)
            },
            Entry::Vacant(e) => {
                assert(before.remove(id) =~= before);
                None
            },
        }
    }

    /// Takes the stream of that number out.
    pub fn remove(&mut self, id: StreamId) -> (r: Option<StreamState>)
        requires
            old(self).wf(),
        ensures
            final(self).wf(),
            final(self)@ == old(self)@.without(id),
            match r {
                Some(s) => old(self)@.streams.contains_key(id) && s@ == old(self)@.streams[id]
                    && s.wf(),
                None => !old(self)@.streams.contains_key(id),
            },
    {
        let r = self.streams.remove(&id);
        assert(self@.streams =~= old(self)@.streams.remove(id));
        r
    }

    /// How many streams there are.
    pub fn len(&self) -> (r: usize)
        requires
            self.wf(),
        ensures
            r == self@.streams.dom().len(),
    {
        assert(self@.streams.dom() =~= self.streams@.dom());
        self.streams.len()
    }

    /// Whether there are no streams.
    pub fn is_empty(&self) -> (r: bool)
        requires
            self.wf(),
        ensures
            r == (self@.streams.dom().len() == 0),
    {
        self.len() == 0
    }

    /// The numbers of all streams, in no particular order.
    pub fn stream_ids(&self) -> (r: Vec<StreamId>)
        requires
            self.wf(),
        ensures
            r@.no_duplicates(),
            r@.to_set() == self@.streams.dom(),
    {
        let mut out: Vec<StreamId> = Vec::new();
        let keys = self.streams.keys();
        let ghost all = keys.remaining().unref();
        for id in it: keys
            invariant
                it.seq().unref() == all,
                out@ == all.take(it.index() as int),
        {
            out.push(*id);
            assert(out@ =~= all.take(it.index() + 1));
        }
        proof {
            assert(all.take(all.len() as int) =~= all);
            assert(self@.streams.dom() =~= self.streams@.dom());
        }
        out
    }

    /// For every stream, how far its data has come here: the resume requests
    /// that follow a reconnect, in no particular order. The sending side goes
    /// back only when the helper says how far it got.
    pub fn build_resume_frames(&self) -> (r: Vec<Frame>)
        requires
            self.wf(),
        ensures
            r@.len() == self@.streams.dom().len(),
            exists|ids: Seq<u32>|
                {
                    &&& ids.no_duplicates()
                    &&& #[trigger] ids.to_set() == self@.streams.dom()
                    &&& frame_views(r@) == resume_requests(self@, ids)
                },
    {
        let ids = self.stream_ids();
        let mut out: Vec<Frame> = Vec::new();
        let mut i: usize = 0;
        while i < ids.len()
            invariant
                self.wf(),
                i <= ids@.len(),
                ids@.to_set() == self@.streams.dom(),
                frame_views(out@) == resume_requests(self@, ids@.take(i as int)),
            decreases ids@.len() - i,
        {
            let id: u32 = ids[i];
            let ghost before = out@;
            assert(ids@.to_set().contains(id));
            match self.streams.get(&id) {
                Some(st) => {
                    let f = Frame::Resume { stream_id: id, recv_offset: st.rx.delivered() };
                    let ghost view = f@;
                    out.push(f);
                    assert(frame_views(out@) =~= frame_views(before).push(view));
                },
                None => {},
            }
            assert(resume_requests(self@, ids@.take(i + 1)) =~= resume_requests(
                self@,
                ids@.take(i as int),
            ).push(resume_request(self@, id)));
            i = i + 1;
        }
        proof {
            assert(ids@.take(i as int) =~= ids@);
            assert(frame_views(out@) == resume_requests(self@, ids@));
            assert(out@.len() == frame_views(out@).len());
            ids@.unique_seq_to_set();
        }
        out
    }

    /// Ends every stream, since the helper has lost their state, and gives
    /// their numbers.
    pub fn reset_all(&mut self, code: ResetCode) -> (r: Vec<StreamId>)
        requires
            old(self).wf(),
        ensures
            final(self).wf(),
            r@.no_duplicates(),
            r@.to_set() == old(self)@.streams.dom(),
            final(self)@ == (MuxView {
                streams: old(self)@.streams.map_values(
                    |s: StreamView| StreamView { reset: Some(code), ..s },
                ),
                ..old(self)@
            }),
    {
        let ids = self.stream_ids();
        let mut i: usize = 0;
        while i < ids.len()
            invariant
                self.wf(),
                i <= ids@.len(),
                ids@.no_duplicates(),
                ids@.to_set() == old(self)@.streams.dom(),
                self@.streams.dom() == old(self)@.streams.dom(),
                self@.next_id == old(self)@.next_id,
                self@.window == old(self)@.window,
                forall|id: u32| #[trigger]
                    self@.streams.contains_key(id) ==> self@.streams[id] == (
                    if ids@.take(i as int).contains(id) {
                        StreamView { reset: Some(code), ..old(self)@.streams[id] }
                    } else {
                        old(self)@.streams[id]
                    }),
            decreases ids@.len() - i,
        {
            let id: u32 = ids[i];
            let ghost before = self@;
            assert(ids@.to_set().contains(id));
            assert(self.table().contains_key(id));
            match self.get_mut(id) {
                Some(st) => {
                    st.reset = Some(code);
                },
                None => {},
            }
            proof {
                let done = ids@.take(i as int);
                let now = ids@.take(i + 1);
                assert(now =~= done.push(id));
                assert(now[i as int] == id);
                assert(self@.streams.dom() =~= old(self)@.streams.dom());
                assert forall|k: u32| #[trigger] self@.streams.contains_key(k) implies
                    self@.streams[k] == (if now.contains(k) {
                    StreamView { reset: Some(code), ..old(self)@.streams[k] }
                } else {
                    old(self)@.streams[k]
                }) by {
                    if k != id {
                        assert(before.streams.contains_key(k));
                        if done.contains(k) {
                            let j = choose|j: int| 0 <= j < done.len() && done[j] == k;
                            assert(now[j] == k);
                        }
                        if now.contains(k) {
                            let j = choose|j: int| 0 <= j < now.len() && now[j] == k;
                            assert(done[j] == k);
                        }
                    }
                }
            }
            i = i + 1;
        }
        proof {
            assert(ids@.take(i as int) =~= ids@);
            assert forall|id: u32| #[trigger] self@.streams.contains_key(id) implies ids@.contains(
                id,
            ) by {
                assert(ids@.to_set().contains(id));
            }
            assert(self@.streams =~= old(self)@.streams.map_values(
                |s: StreamView| StreamView { reset: Some(code), ..s },
            ));
        }
        ids
    }
}

/// The resume request for one stream.
pub open spec fn resume_request(m: MuxView, id: u32) -> FrameView {
    FrameView::Resume { stream_id: id, recv_offset: m.streams[id].rx.delivered as u64 }
}

/// The resume requests for some streams.
pub open spec fn resume_requests(m: MuxView, ids: Seq<u32>) -> Seq<FrameView> {
    ids.map_values(|id: u32| resume_request(m, id))
}

/// What is to be done after a frame has changed the streams.
#[derive(Debug, PartialEq, Eq)]
pub enum FrameEffect {
    /// Nothing.
    Nothing,
    /// Hand the bytes to the local socket.
    Deliver { stream_id: StreamId, data: Bytes },
    /// Send the frames back.
    Reply(Vec<Frame>),
    /// The stream is over; close the local socket.
    Terminate { stream_id: StreamId, code: ResetCode },
    /// The remote side has stopped writing; shut down the local socket for
    /// writing.
    RemoteFin { stream_id: StreamId },
    /// The stream goes on, and `gap` bytes are to be sent again.
    Resumed { stream_id: StreamId, gap: u64 },
}

/// What an effect stands for.
#[verifier::ext_equal]
pub enum EffectView {
    Nothing,
    Deliver { stream_id: u32, data: Seq<u8> },
    Reply(Seq<FrameView>),
    Terminate { stream_id: u32, code: ResetCode },
    RemoteFin { stream_id: u32 },
    Resumed { stream_id: u32, gap: u64 },
}

impl View for FrameEffect {
    type V = EffectView;

    open spec fn view(&self) -> EffectView {
        match self {
            FrameEffect::Nothing => EffectView::Nothing,
            FrameEffect::Deliver { stream_id, data } => EffectView::Deliver {
                stream_id: *stream_id,
                data: content(*data),
            },
            FrameEffect::Reply(frames) => EffectView::Reply(frame_views(frames@)),
            FrameEffect::Terminate { stream_id, code } => EffectView::Terminate {
                stream_id: *stream_id,
                code: *code,
            },
            FrameEffect::RemoteFin { stream_id } => EffectView::RemoteFin { stream_id: *stream_id },
            FrameEffect::Resumed { stream_id, gap } => EffectView::Resumed {
                stream_id: *stream_id,
                gap: *gap,
            },
        }
    }
}

/// What several effects stand for.
pub open spec fn effect_views(effects: Seq<FrameEffect>) -> Seq<EffectView> {
    effects.map_values(|e: FrameEffect| e@)
}

/// A reply of one frame.
pub open spec fn reply(f: FrameView) -> EffectView {
    EffectView::Reply(seq![f])
}

impl MuxView {
    /// The streams after a frame from the helper.
    pub open spec fn applied(self, f: FrameView) -> MuxView {
        match f {
            FrameView::OpenOk { stream_id } => if self.streams.contains_key(stream_id) {
                self.with(stream_id, StreamView { opened: true, ..self.streams[stream_id] })
            } else {
                self
            },
            FrameView::OpenErr { stream_id, code, .. } => self.with_reset(stream_id, code),
            FrameView::Data { stream_id, offset, data } => if self.streams.contains_key(
                stream_id,
            ) {
                let s = self.streams[stream_id];
                if s.rx.accept_result(offset as nat, data) is Err {
                    self.with_reset(stream_id, ResetCode::Internal)
                } else {
                    self.with(
                        stream_id,
                        StreamView { rx: s.rx.accepted(offset as nat, data), ..s },
                    )
                }
            } else {
                self
            },
            FrameView::Ack { stream_id, offset } => if self.streams.contains_key(stream_id) {
                let s = self.streams[stream_id];
                if s.tx.ack_result(offset as nat) is Err {
                    self.with_reset(stream_id, ResetCode::Internal)
                } else {
                    self.with(stream_id, StreamView { tx: s.tx.released(offset as nat), ..s })
                }
            } else {
                self
            },
            FrameView::Fin { stream_id } => if self.streams.contains_key(stream_id) {
                let s = self.streams[stream_id];
                self.with(
                    stream_id,
                    StreamView {
                        remote_fin: true,
                        rx: RecvView { fin_at: Some(s.rx.delivered), ..s.rx },
                        ..s
                    },
                )
            } else {
                self
            },
            FrameView::Reset { stream_id, code } => self.with_reset(stream_id, code),
            FrameView::ResumeOk { stream_id, recv_offset } => if self.streams.contains_key(
                stream_id,
            ) {
                let s = self.streams[stream_id];
                if s.tx.rewind_result(recv_offset as nat) is Err {
                    self.with_reset(stream_id, ResetCode::ResumeImpossible)
                } else {
                    self.with(stream_id, StreamView { tx: s.tx.rewound(recv_offset as nat), ..s })
                }
            } else {
                self
            },
            FrameView::ResumeErr { stream_id, code } => self.with_reset(stream_id, code),
            _ => self,
        }
    }

    /// What is to be done after a frame from the helper.
    pub open spec fn effects(self, f: FrameView) -> Seq<EffectView> {
        match f {
            FrameView::OpenErr { stream_id, code, .. } => seq![
                EffectView::Terminate { stream_id, code },
            ],
            FrameView::Data { stream_id, offset, data } => if !self.streams.contains_key(
                stream_id,
            ) {
                seq![reply(FrameView::Reset { stream_id, code: ResetCode::UnknownStream })]
            } else {
                let rx = self.streams[stream_id].rx;
                let ack = reply(
                    FrameView::Ack {
                        stream_id,
                        offset: rx.accepted(offset as nat, data).delivered as u64,
                    },
                );
                match rx.accept_result(offset as nat, data) {
                    Ok(Some(fresh)) => seq![EffectView::Deliver { stream_id, data: fresh }, ack],
                    Ok(None) => seq![ack],
                    Err(_) => seq![
                        reply(FrameView::Reset { stream_id, code: ResetCode::Internal }),
                        EffectView::Terminate { stream_id, code: ResetCode::Internal },
                    ],
                }
            },
            FrameView::Ack { stream_id, offset } => if self.streams.contains_key(stream_id)
                && self.streams[stream_id].tx.ack_result(offset as nat) is Err {
                seq![EffectView::Terminate { stream_id, code: ResetCode::Internal }]
            } else {
                seq![]
            },
            FrameView::Fin { stream_id } => if self.streams.contains_key(stream_id) {
                seq![EffectView::RemoteFin { stream_id }]
            } else {
                seq![]
            },
            FrameView::Reset { stream_id, code } => seq![
                EffectView::Terminate { stream_id, code },
            ],
            FrameView::ResumeOk { stream_id, recv_offset } => if self.streams.contains_key(
                stream_id,
            ) {
                match self.streams[stream_id].tx.rewind_result(recv_offset as nat) {
                    Ok(gap) => seq![EffectView::Resumed { stream_id, gap: gap as u64 }],
                    Err(_) => seq![
                        reply(FrameView::Reset { stream_id, code: ResetCode::ResumeImpossible }),
                        EffectView::Terminate { stream_id, code: ResetCode::ResumeImpossible },
                    ],
                }
            } else {
                seq![]
            },
            FrameView::ResumeErr { stream_id, code } => seq![
                EffectView::Terminate { stream_id, code },
            ],
            FrameView::Ping { nonce } => seq![reply(FrameView::Pong { nonce })],
            _ => seq![],
        }
    }

    /// Whether the stream's byte count still fits 64 bits after the frame.
    pub open spec fn countable(self, f: FrameView) -> bool {
        f matches FrameView::Data { stream_id, offset, data } ==> self.streams.contains_key(
            stream_id,
        ) && offset <= self.streams[stream_id].rx.delivered ==> offset + data.len() <= u64::MAX
    }
}

/// A reply of one frame.
fn reply_with(f: Frame) -> (r: FrameEffect)
    ensures
        r@ == reply(f@),
{
    let mut frames: Vec<Frame> = Vec::new();
    let ghost view = f@;
    frames.push(f);
    assert(frame_views(frames@) =~= seq![view]);
    FrameEffect::Reply(frames)
}

/// Lets a frame from the helper act on the streams, and says what is to be
/// done about it.
pub fn apply_frame(state: &mut MuxState, frame: Frame) -> (r: Result<Vec<FrameEffect>, ProtoError>)
    requires
        old(state).wf(),
        old(state)@.countable(frame@),
    ensures
        final(state).wf(),
        final(state)@ == old(state)@.applied(frame@),
        r matches Ok(effects) && effect_views(effects@) == old(state)@.effects(frame@),
{
    let mut out: Vec<FrameEffect> = Vec::new();
    let ghost before = state@;
    let ghost f = frame@;
    match frame {
        Frame::OpenOk { stream_id } => {
            match state.get_mut(stream_id) {
                Some(st) => {
                    st.opened = true;
                },
                None => {},
            }
        },
        Frame::OpenErr { stream_id, code, msg } => {
            match state.get_mut(stream_id) {
                Some(st) => {
                    st.reset = Some(code);
                },
                None => {},
            }
            out.push(FrameEffect::Terminate { stream_id, code });
        },
        Frame::Data { stream_id, offset, data } => {
            match state.get_mut(stream_id) {
                Some(st) => {
                    match st.rx.accept(offset, data) {
                        Ok(Some(fresh)) => {
                            let delivered: u64 = st.rx.delivered();
                            out.push(FrameEffect::Deliver { stream_id, data: fresh });
                            out.push(reply_with(Frame::Ack { stream_id, offset: delivered }));
                        },
                        Ok(None) => {
                            let delivered: u64 = st.rx.delivered();
                            out.push(reply_with(Frame::Ack { stream_id, offset: delivered }));
                        },
                        Err(_) => {
                            st.reset = Some(ResetCode::Internal);
                            out.push(
                                reply_with(
                                    Frame::Reset { stream_id, code: ResetCode::Internal },
                                ),
                            );
                            out.push(
                                FrameEffect::Terminate { stream_id, code: ResetCode::Internal },
                            );
                        },
                    }
                },
                None => {
                    out.push(
                        reply_with(Frame::Reset { stream_id, code: ResetCode::UnknownStream }),
                    );
                },
            }
        },
        Frame::Ack { stream_id, offset } => {
            match state.get_mut(stream_id) {
                Some(st) => {
                    match st.tx.ack(offset) {
                        Ok(()) => {},
                        Err(_) => {
                            st.reset = Some(ResetCode::Internal);
                            out.push(
                                FrameEffect::Terminate { stream_id, code: ResetCode::Internal },
                            );
                        },
                    }
                },
                None => {},
            }
        },
        Frame::Fin { stream_id } => {
            match state.get_mut(stream_id) {
                Some(st) => {
                    st.remote_fin = true;
                    st.rx.mark_fin();
                    out.push(FrameEffect::RemoteFin { stream_id });
                },
                None => {},
            }
        },
        Frame::Reset { stream_id, code } => {
            match state.get_mut(stream_id) {
                Some(st) => {
                    st.reset = Some(code);
                },
                None => {},
            }
            out.push(FrameEffect::Terminate { stream_id, code });
        },
        Frame::ResumeOk { stream_id, recv_offset } => {
            match state.get_mut(stream_id) {
                Some(st) => {
                    match st.tx.rewind_to(recv_offset) {
                        Ok(gap) => {
                            out.push(FrameEffect::Resumed { stream_id, gap });
                        },
                        Err(_) => {
                            st.reset = Some(ResetCode::ResumeImpossible);
                            out.push(
                                reply_with(
                                    Frame::Reset {
                                        stream_id,
                                        code: ResetCode::ResumeImpossible,
                                    },
                                ),
                            );
                            out.push(
                                FrameEffect::Terminate {
                                    stream_id,
                                    code: ResetCode::ResumeImpossible,
                                },
                            );
                        },
                    }
                },
                None => {},
            }
        },
        Frame::ResumeErr { stream_id, code } => {
            match state.get_mut(stream_id) {
                Some(st) => {
                    st.reset = Some(code);
                },
                None => {},
            }
            out.push(FrameEffect::Terminate { stream_id, code });
        },
        Frame::Ping { nonce } => {
            out.push(reply_with(Frame::Pong { nonce }));
        },
        Frame::Pong { .. } => {},
        Frame::Hello { .. } => {},
        Frame::HelloAck { .. } => {},
        Frame::Open { .. } => {},
        Frame::Resume { .. } => {},
    }
    proof {
        assert(state@.streams =~= before.applied(f).streams);
        assert(effect_views(out@) =~= before.effects(f));
        assert(state.table().dom().finite());
    }
    Ok(out)
}

/// The data frames of a stream, at most `n` of them, from its cursor on.
pub open spec fn data_frames(tx: SendView, id: u32, n: nat) -> Seq<FrameView>
    decreases n,
{
    if n == 0 || tx.cursor >= tx.end() {
        seq![]
    } else {
        seq![
            FrameView::Data {
                stream_id: id,
                offset: tx.cursor as u64,
                data: tx.unsent(DATA_CHUNK as nat),
            },
        ] + data_frames(tx.advanced(DATA_CHUNK as nat), id, (n - 1) as nat)
    }
}

/// The send buffer after at most `n` data frames were taken.
pub open spec fn after_data_frames(tx: SendView, n: nat) -> SendView
    decreases n,
{
    if n == 0 || tx.cursor >= tx.end() {
        tx
    } else {
        after_data_frames(tx.advanced(DATA_CHUNK as nat), (n - 1) as nat)
    }
}

impl StreamView {
    /// Whether the end of the stream is to be announced: the local side has
    /// stopped writing, everything was sent, and it was not announced before.
    pub open spec fn fin_due(self) -> bool {
        self.local_fin && self.tx.cursor >= self.tx.end() && !self.tx.fin_queued
    }

    /// The stream after its output was taken, at most `n` data frames of it.
    pub open spec fn drained(self, n: nat) -> StreamView {
        let sent = StreamView { tx: after_data_frames(self.tx, n), ..self };
        if sent.fin_due() {
            StreamView { tx: SendView { fin_queued: true, ..sent.tx }, ..sent }
        } else {
            sent
        }
    }

    /// The frames that taking its output gives.
    pub open spec fn output(self, id: u32, n: nat) -> Seq<FrameView> {
        let sent = StreamView { tx: after_data_frames(self.tx, n), ..self };
        data_frames(self.tx, id, n) + (if sent.fin_due() {
            seq![FrameView::Fin { stream_id: id }]
        } else {
            seq![]
        })
    }
}

impl MuxView {
    /// The streams after the output of one was taken.
    pub open spec fn drained(self, id: u32, n: nat) -> MuxView {
        if self.streams.contains_key(id) {
            self.with(id, self.streams[id].drained(n))
        } else {
            self
        }
    }

    /// The frames that taking the output of a stream gives.
    pub open spec fn output(self, id: u32, n: nat) -> Seq<FrameView> {
        if self.streams.contains_key(id) {
            self.streams[id].output(id, n)
        } else {
            seq![]
        }
    }
}

/// Takes what a stream has to send: at most `max_frames` data frames, and the
/// announcement of its end once everything was sent.
pub fn drain_stream_output(state: &mut MuxState, id: StreamId, max_frames: usize) -> (r: Vec<Frame>)
    requires
        old(state).wf(),
    ensures
        final(state).wf(),
        final(state)@ == old(state)@.drained(id, max_frames as nat),
        frame_views(r@) == old(state)@.output(id, max_frames as nat),
{
    let mut frames: Vec<Frame> = Vec::new();
    let ghost before = state@;
    match state.get_mut(id) {
        None => {},
        Some(st) => {
            let ghost start = st@;
            let mut n: usize = 0;
            loop
                invariant_except_break
                    st.wf(),
                    n <= max_frames,
                    st@ == (StreamView { tx: st@.tx, ..start }),
                    data_frames(start.tx, id, max_frames as nat) == frame_views(frames@)
                        + data_frames(st@.tx, id, (max_frames - n) as nat),
                    after_data_frames(start.tx, max_frames as nat) == after_data_frames(
                        st@.tx,
                        (max_frames - n) as nat,
                    ),
                ensures
                    st.wf(),
                    st@ == (StreamView { tx: after_data_frames(start.tx, max_frames as nat), ..start
                    }),
                    frame_views(frames@) == data_frames(start.tx, id, max_frames as nat),
                decreases max_frames - n,
            {
                if n == max_frames {
                    break;
                }
                let ghost tx = st@.tx;
                let ghost got = frame_views(frames@);
                match st.tx.next_unsent(DATA_CHUNK) {
                    Some((offset, data)) => {
                        let f = Frame::Data { stream_id: id, offset, data };
                        let ghost view = f@;
                        frames.push(f);
                        proof {
                            assert(frame_views(frames@) =~= got.push(view));
                            let rest = data_frames(st@.tx, id, (max_frames - n - 1) as nat);
                            assert(got + (seq![view] + rest) =~= frame_views(frames@) + rest);
                        }
                    },
                    None => {
                        break;
                    },
                }
                n = n + 1;
            }
            if st.local_fin && !st.tx.has_pending() && !st.tx.fin_queued() {
                st.tx.mark_fin();
                let ghost got = frame_views(frames@);
                frames.push(Frame::Fin { stream_id: id });
                assert(frame_views(frames@) =~= got.push(FrameView::Fin { stream_id: id }));
            }
        },
    }
    proof {
        assert(state@.streams =~= before.drained(id, max_frames as nat).streams);
        assert(frame_views(frames@) =~= before.output(id, max_frames as nat));
    }
    frames
}

/// Appends several frames.
pub fn encode_all(frames: &[Frame], dst: &mut BytesMut)
    requires
        buffered(*old(dst)).len() + wire_all(frame_views(frames@)).len() <= isize::MAX,
    ensures
        buffered(*final(dst)) == buffered(*old(dst)) + wire_all(frame_views(frames@)),
{
    let ghost before = buffered(*dst);
    let ghost views = frame_views(frames@);
    let mut i: usize = 0;
    assert(views.take(0) =~= Seq::<FrameView>::empty());
    while i < frames.len()
        invariant
            i <= frames@.len(),
            views == frame_views(frames@),
            before.len() + wire_all(views).len() <= isize::MAX,
            buffered(*dst) == before + wire_all(views.take(i as int)),
        decreases frames@.len() - i,
    {
        proof {
            assert(views.take(i + 1) =~= views.take(i as int).push(views[i as int]));
            lemma_wire_all_push(views.take(i as int), views[i as int]);
            lemma_wire_all_take(views, i + 1);
        }
        frames[i].encode(dst);
        assert(buffered(*dst) =~= before + wire_all(views.take(i + 1)));
        i = i + 1;
    }
    assert(views.take(i as int) =~= views);
}

proof fn lemma_wire_all_take(views: Seq<FrameView>, n: int)
    requires
        0 <= n <= views.len(),
    ensures
        wire_all(views.take(n)).len() <= wire_all(views).len(),
    decreases views.len() - n,
{
    if n == views.len() {
        assert(views.take(n) =~= views);
    } else {
        lemma_wire_all_take(views, n + 1);
        assert(views.take(n + 1) =~= views.take(n).push(views[n]));
        lemma_wire_all_push(views.take(n), views[n]);
    }
}

/// The stream bytes that data frames carry, one after the other.
pub open spec fn carried_bytes(frames: Seq<FrameView>) -> Seq<u8>
    decreases frames.len(),
{
    if frames.len() == 0 {
        seq![]
    } else {
        (match frames[0] {
            FrameView::Data { data, .. } => data,
            _ => seq![],
        }) + carried_bytes(frames.drop_first())
    }
}

/// Whether the frames are data frames of one stream that follow each other
/// without a hole, the first at `offset`.
pub open spec fn contiguous(frames: Seq<FrameView>, id: u32, offset: nat) -> bool
    decreases frames.len(),
{
    frames.len() == 0 || (match frames[0] {
        FrameView::Data { stream_id, offset: at, data } => stream_id == id && at == offset
            && contiguous(frames.drop_first(), id, offset + data.len()),
        _ => false,
    })
}

/// Taking all the output of a stream gives every byte from its cursor on, in
/// frames that follow each other without a hole.
pub proof fn law_output_is_contiguous(tx: SendView, id: u32, n: nat)
    requires
        tx.valid(),
        n * DATA_CHUNK >= tx.end() - tx.cursor,
    ensures
        carried_bytes(data_frames(tx, id, n)) == tx.unacked.skip(tx.cursor - tx.acked),
        contiguous(data_frames(tx, id, n), id, tx.cursor),
        after_data_frames(tx, n).cursor == tx.end(),
        after_data_frames(tx, n).unacked == tx.unacked,
    decreases n,
{
    let from = tx.cursor - tx.acked;
    if n == 0 || tx.cursor >= tx.end() {
        assert(n == 0 ==> n * DATA_CHUNK == 0) by (nonlinear_arith);
        assert(tx.unacked.skip(from) =~= Seq::<u8>::empty());
    } else {
        let next = tx.advanced(DATA_CHUNK as nat);
        let data = tx.unsent(DATA_CHUNK as nat);
        let head = FrameView::Data { stream_id: id, offset: tx.cursor as u64, data };
        assert((n - 1) * DATA_CHUNK == n * DATA_CHUNK - DATA_CHUNK) by (nonlinear_arith);
        law_output_is_contiguous(next, id, (n - 1) as nat);
        let rest = data_frames(next, id, (n - 1) as nat);
        assert((seq![head] + rest).drop_first() =~= rest);
        assert(data + tx.unacked.skip(next.cursor - tx.acked) =~= tx.unacked.skip(from));
    }
}

/// When the helper resumes a stream, the missing bytes are sent again: exactly
/// those, from the offset at which the helper stands.
pub proof fn law_resume_resends_exactly_the_gap(m: MuxView, id: u32, recv_offset: u64, n: nat)
    requires
        m.streams.contains_key(id),
        m.streams[id].tx.valid(),
        m.streams[id].tx.acked <= recv_offset <= m.streams[id].tx.end(),
        n * DATA_CHUNK >= m.streams[id].tx.end() - recv_offset,
    ensures
        ({
            let f = FrameView::ResumeOk { stream_id: id, recv_offset };
            let tx = m.streams[id].tx;
            let sent = data_frames(m.applied(f).streams[id].tx, id, n);
            &&& m.effects(f) == seq![
                EffectView::Resumed { stream_id: id, gap: (tx.end() - recv_offset) as u64 },
            ]
            &&& carried_bytes(sent) == tx.unacked.skip(recv_offset - tx.acked)
            &&& contiguous(sent, id, recv_offset as nat)
        }),
{
    let f = FrameView::ResumeOk { stream_id: id, recv_offset };
    let tx = m.streams[id].tx;
    let back = tx.rewound(recv_offset as nat);
    law_output_is_contiguous(back, id, n);
    assert(back.unacked.skip(0) =~= back.unacked);
    assert(back.unacked =~= tx.unacked.skip(recv_offset - tx.acked));
}

/// Bytes that were released and are missing at the helper end the stream: it
/// is never continued with a hole.
pub proof fn law_unresumable_gap_ends_the_stream(m: MuxView, id: u32, recv_offset: u64)
    requires
        m.streams.contains_key(id),
        recv_offset < m.streams[id].tx.acked,
    ensures
        ({
            let f = FrameView::ResumeOk { stream_id: id, recv_offset };
            let code = ResetCode::ResumeImpossible;
            &&& m.applied(f).streams[id].reset == Some(code)
            &&& m.effects(f) == seq![
                reply(FrameView::Reset { stream_id: id, code }),
                EffectView::Terminate { stream_id: id, code },
            ]
        }),
{
}

/// Data that was delivered before is acknowledged again and not delivered.
pub proof fn law_duplicate_data_is_only_acked(m: MuxView, id: u32, offset: u64, data: Seq<u8>)
    requires
        m.streams.contains_key(id),
        offset + data.len() <= m.streams[id].rx.delivered,
    ensures
        ({
            let f = FrameView::Data { stream_id: id, offset, data };
            &&& m.applied(f) == m
            &&& m.effects(f) == seq![
                reply(
                    FrameView::Ack {
                        stream_id: id,
                        offset: m.streams[id].rx.delivered as u64,
                    },
                ),
            ]
        }),
{
    let f = FrameView::Data { stream_id: id, offset, data };
    assert(m.applied(f).streams =~= m.streams);
}

/// A frame changes no stream but its own, and neither adds nor removes one.
pub proof fn law_frame_touches_only_its_stream(m: MuxView, f: FrameView, other: u32)
    requires
        f.stream_id() != Some(other),
    ensures
        m.applied(f).streams.dom() == m.streams.dom(),
        m.applied(f).streams[other] == m.streams[other],
        m.applied(f).next_id == m.next_id,
{
    assert(m.applied(f).streams.dom() =~= m.streams.dom());
}

/// The end of the remote side's writing closes one direction only: what the
/// local side has written and will write is sent all the same.
pub proof fn law_remote_fin_is_a_half_close(m: MuxView, id: u32)
    requires
        m.streams.contains_key(id),
    ensures
        ({
            let f = FrameView::Fin { stream_id: id };
            let after = m.applied(f).streams[id];
            &&& m.effects(f) == seq![EffectView::RemoteFin { stream_id: id }]
            &&& after.remote_fin
            &&& after.tx == m.streams[id].tx
            &&& after.local_fin == m.streams[id].local_fin
            &&& after.reset == m.streams[id].reset
        }),
{
}

/// Data for a stream that the client does not know is answered with a reset,
/// and changes nothing.
pub proof fn law_unknown_data_is_reset(m: MuxView, id: u32, offset: u64, data: Seq<u8>)
    requires
        !m.streams.contains_key(id),
    ensures
        ({
            let f = FrameView::Data { stream_id: id, offset, data };
            &&& m.applied(f) == m
            &&& m.effects(f) == seq![
                reply(FrameView::Reset { stream_id: id, code: ResetCode::UnknownStream }),
            ]
        }),
{
}

/// Data that goes on from where the stream stands is delivered, but for what
/// was delivered before, and its end is acknowledged.
pub proof fn law_new_data_is_delivered_and_acked(m: MuxView, id: u32, offset: u64, data: Seq<u8>)
    requires
        m.streams.contains_key(id),
        offset <= m.streams[id].rx.delivered < offset + data.len(),
        offset + data.len() <= u64::MAX,
    ensures
        ({
            let f = FrameView::Data { stream_id: id, offset, data };
            let end = (offset + data.len()) as u64;
            let s = m.streams[id];
            &&& m.effects(f) == seq![
                EffectView::Deliver {
                    stream_id: id,
                    data: data.skip(s.rx.delivered - offset),
                },
                EffectView::Reply(seq![FrameView::Ack { stream_id: id, offset: end }]),
            ]
            &&& m.applied(f).streams[id] == (StreamView {
                rx: RecvView { delivered: end as nat, ..s.rx },
                ..s
            })
        }),
{
}

/// Data with a hole in front of it ends its stream at both ends: it is neither
/// delivered nor kept.
pub proof fn law_a_hole_ends_the_stream(m: MuxView, id: u32, offset: u64, data: Seq<u8>)
    requires
        m.streams.contains_key(id),
        offset > m.streams[id].rx.delivered,
    ensures
        ({
            let f = FrameView::Data { stream_id: id, offset, data };
            let code = ResetCode::Internal;
            &&& m.effects(f) == seq![
                EffectView::Reply(seq![FrameView::Reset { stream_id: id, code }]),
                EffectView::Terminate { stream_id: id, code },
            ]
            &&& m.applied(f).streams[id] == (StreamView { reset: Some(code), ..m.streams[id] })
        }),
{
}

/// The helper's word on a new stream: a success is noted and asks for nothing,
/// a failure ends the stream with the reason that was given. Neither touches
/// what was written or received.
pub proof fn law_open_is_answered(m: MuxView, id: u32, code: ResetCode, msg: Seq<char>)
    requires
        m.streams.contains_key(id),
    ensures
        ({
            let ok = FrameView::OpenOk { stream_id: id };
            let no = FrameView::OpenErr { stream_id: id, code, msg };
            let s = m.streams[id];
            &&& m.effects(ok).len() == 0
            &&& m.applied(ok).streams[id] == (StreamView { opened: true, ..s })
            &&& m.effects(no) == seq![EffectView::Terminate { stream_id: id, code }]
            &&& m.applied(no).streams[id] == (StreamView { reset: Some(code), ..s })
        }),
{
}

/// A stream that the helper resets or cannot resume is over, for the reason
/// that the helper gives, known here or not.
pub proof fn law_the_helpers_end_is_final(m: MuxView, id: u32, code: ResetCode)
    ensures
        ({
            let reset = FrameView::Reset { stream_id: id, code };
            let lost = FrameView::ResumeErr { stream_id: id, code };
            let over = seq![EffectView::Terminate { stream_id: id, code }];
            &&& m.effects(reset) == over
            &&& m.effects(lost) == over
            &&& if m.streams.contains_key(id) {
                let s = StreamView { reset: Some(code), ..m.streams[id] };
                m.applied(reset).streams[id] == s && m.applied(lost).streams[id] == s
            } else {
                m.applied(reset) == m && m.applied(lost) == m
            }
        }),
{
}

/// An acknowledgement of written bytes releases them and asks for nothing. One
/// of bytes that were never written ends the stream.
pub proof fn law_acks_are_taken_or_end_the_stream(m: MuxView, id: u32, offset: u64)
    requires
        m.streams.contains_key(id),
        m.streams[id].tx.valid(),
    ensures
        ({
            let f = FrameView::Ack { stream_id: id, offset };
            let s = m.streams[id];
            let t = m.applied(f).streams[id];
            if offset <= s.tx.acked + s.tx.unacked.len() {
                &&& m.effects(f).len() == 0
                &&& t == (StreamView { tx: t.tx, ..s })
                &&& t.tx.acked == vstd::math::max(s.tx.acked as int, offset as int)
                &&& t.tx.acked + t.tx.unacked.len() == s.tx.acked + s.tx.unacked.len()
                &&& t.tx.unacked =~= s.tx.unacked.skip(t.tx.acked - s.tx.acked)
            } else {
                &&& m.effects(f) == seq![
                    EffectView::Terminate { stream_id: id, code: ResetCode::Internal },
                ]
                &&& t == (StreamView { reset: Some(ResetCode::Internal), ..s })
            }
        }),
{
}

/// A sign of life is answered with the same number and touches no stream. What
/// only a client sends, and the handshake, are no business of the streams.
pub proof fn law_pings_are_answered(
    m: MuxView,
    nonce: u64,
    id: u32,
    addr: AddrView,
    offset: u64,
)
    ensures
        m.effects(FrameView::Ping { nonce }) == seq![
            EffectView::Reply(seq![FrameView::Pong { nonce }]),
        ],
        m.applied(FrameView::Ping { nonce }) == m,
        m.effects(FrameView::Pong { nonce }).len() == 0,
        m.applied(FrameView::Pong { nonce }) == m,
        m.effects(FrameView::Open { stream_id: id, addr }).len() == 0,
        m.applied(FrameView::Open { stream_id: id, addr }) == m,
        m.effects(FrameView::Resume { stream_id: id, recv_offset: offset }).len() == 0,
        m.applied(FrameView::Resume { stream_id: id, recv_offset: offset }) == m,
{
}

/// What comes for a stream that is not known, other than data, is dropped.
pub proof fn law_strays_are_dropped(m: MuxView, id: u32, offset: u64)
    requires
        !m.streams.contains_key(id),
    ensures
        m.effects(FrameView::Ack { stream_id: id, offset }).len() == 0,
        m.applied(FrameView::Ack { stream_id: id, offset }) == m,
        m.effects(FrameView::Fin { stream_id: id }).len() == 0,
        m.applied(FrameView::Fin { stream_id: id }) == m,
        m.effects(FrameView::OpenOk { stream_id: id }).len() == 0,
        m.applied(FrameView::OpenOk { stream_id: id }) == m,
        m.effects(FrameView::ResumeOk { stream_id: id, recv_offset: offset }).len() == 0,
        m.applied(FrameView::ResumeOk { stream_id: id, recv_offset: offset }) == m,
{
}

/// A new stream gets a number that is in use nowhere, starts empty and leads
/// to its target. The other streams stay as they are. Numbers are given in
/// order: the next one if it is free, and else the first free one behind it.
pub proof fn law_new_streams_are_fresh(m: MuxView, id: u32, addr: AddrView)
    requires
        m.allocates(id),
    ensures
        ({
            let n = m.with_new(id, addr);
            let s = n.streams[id];
            &&& id != 0
            &&& !m.streams.contains_key(id)
            &&& n.streams.dom() =~= m.streams.dom().insert(id)
            &&& forall|other: u32| other != id ==> #[trigger] n.streams[other] == m.streams[other]
            &&& s.addr == addr
            &&& s.tx.acked == 0 && s.tx.cursor == 0 && s.tx.unacked.len() == 0
            &&& s.tx.capacity == m.window && n.window == m.window
            &&& !s.tx.fin_queued && !s.opened && !s.local_fin && !s.remote_fin
            &&& s.reset is None && s.rx.delivered == 0 && s.rx.fin_at is None
            &&& n.next_id == if id == u32::MAX {
                0
            } else {
                id + 1
            }
            &&& m.next_id != 0 && !m.streams.contains_key(m.next_id) ==> id == m.next_id
            &&& m.next_id <= id ==> forall|j: u32|
                m.next_id <= j < id && j != 0 ==> #[trigger] m.streams.contains_key(j)
            &&& id < m.next_id ==> forall|j: u32|
                (m.next_id <= j || j < id) && j != 0 ==> #[trigger] m.streams.contains_key(j)
        }),
{
    if m.next_id != 0 && !m.streams.contains_key(m.next_id) {
        assert(m.free(m.next_id));
    }
    if m.next_id <= id {
        assert forall|j: u32| m.next_id <= j < id && j != 0 implies #[trigger] m.streams.contains_key(
            j,
        ) by {
            assert(!m.free(j));
        }
    } else {
        assert forall|j: u32|
            (m.next_id <= j || j < id) && j != 0 implies #[trigger] m.streams.contains_key(j) by {
            assert(!m.free(j));
        }
    }
}

/// A stream is over exactly when it was ended, or both sides have stopped
/// writing and everything that was written here has arrived.
pub proof fn law_finished_means_nothing_is_left(s: StreamView)
    ensures
        s.reset is Some ==> s.finished(),
        s.reset is None ==> (s.finished() <==> s.local_fin && s.remote_fin
            && s.tx.unacked.len() == 0),
{
}

/// After a reconnect every stream asks for the bytes from where it stands.
pub proof fn law_each_stream_asks_from_where_it_stands(m: MuxView, ids: Seq<u32>, i: int)
    requires
        0 <= i < ids.len(),
    ensures
        resume_requests(m, ids).len() == ids.len(),
        resume_requests(m, ids)[i] == (FrameView::Resume {
            stream_id: ids[i],
            recv_offset: m.streams[ids[i]].rx.delivered as u64,
        }),
{
}

/// Taking the output of a stream gives the bytes that were not sent yet, as
/// many as the frames can carry, in frames that are neither empty nor too long
/// and follow each other without a hole. Everything else about the buffer stays.
pub proof fn law_output_is_what_was_not_sent(tx: SendView, id: u32, n: nat)
    requires
        tx.valid(),
    ensures
        ({
            let frames = data_frames(tx, id, n);
            let left = tx.unacked.skip(tx.cursor - tx.acked);
            let sent = if n * 32768 < left.len() {
                (n * 32768) as int
            } else {
                left.len() as int
            };
            &&& carried_bytes(frames) == left.take(sent)
            &&& contiguous(frames, id, tx.cursor)
            &&& frames.len() <= n
            &&& forall|i: int|
                0 <= i < frames.len() ==> #[trigger] well_filled(frames[i])
            &&& after_data_frames(tx, n) == (SendView {
                cursor: (tx.cursor + sent) as nat,
                ..tx
            })
        }),
    decreases n,
{
    let left = tx.unacked.skip(tx.cursor - tx.acked);
    if n == 0 || tx.cursor >= tx.end() {
        assert(n == 0 ==> n * DATA_CHUNK == 0) by (nonlinear_arith);
        assert(n * DATA_CHUNK >= 0) by (nonlinear_arith);
        assert(left.take(0) =~= Seq::<u8>::empty());
    } else {
        let next = tx.advanced(DATA_CHUNK as nat);
        let data = tx.unsent(DATA_CHUNK as nat);
        let head = FrameView::Data { stream_id: id, offset: tx.cursor as u64, data };
        assert((n - 1) * DATA_CHUNK == n * DATA_CHUNK - DATA_CHUNK) by (nonlinear_arith);
        assert(n * DATA_CHUNK >= DATA_CHUNK) by (nonlinear_arith)
            requires
                n > 0,
        ;
        law_output_is_what_was_not_sent(next, id, (n - 1) as nat);
        let rest = data_frames(next, id, (n - 1) as nat);
        let frames = data_frames(tx, id, n);
        assert(frames =~= seq![head] + rest);
        assert(frames.drop_first() =~= rest);
        let later = next.unacked.skip(next.cursor - next.acked);
        let sent = if n * DATA_CHUNK < left.len() {
            (n * DATA_CHUNK) as int
        } else {
            left.len() as int
        };
        assert(data + later.take(sent - data.len()) =~= left.take(sent));
        assert forall|i: int| 0 <= i < frames.len() implies #[trigger] well_filled(frames[i]) by {
            if i > 0 {
                assert(frames[i] == rest[i - 1]);
                assert(well_filled(rest[i - 1]));
            }
        }
    }
}

/// Whether a frame carries data, and no more than one frame of a stream may.
pub open spec fn well_filled(f: FrameView) -> bool {
    f matches FrameView::Data { data, .. } && 0 < data.len() <= DATA_CHUNK
}

/// Taking the output of a stream announces its end behind the data, exactly
/// when the local side has stopped writing, all of it was sent, and it was not
/// announced before. Nothing else about the stream changes, and a stream that
/// is not known gives nothing.
pub proof fn law_the_end_follows_the_output(m: MuxView, id: u32, s: StreamView, n: nat)
    requires
        s.tx.valid(),
    ensures
        ({
            let left = s.tx.unacked.skip(s.tx.cursor - s.tx.acked);
            let sent = if n * 32768 < left.len() {
                (n * 32768) as int
            } else {
                left.len() as int
            };
            let fin = s.local_fin && sent == left.len() && !s.tx.fin_queued;
            let frames = data_frames(s.tx, id, n);
            &&& contiguous(frames, id, s.tx.cursor)
            &&& carried_bytes(frames) == left.take(sent)
            &&& s.output(id, n) == frames + (if fin {
                seq![FrameView::Fin { stream_id: id }]
            } else {
                seq![]
            })
            &&& s.drained(n) == (StreamView {
                tx: SendView {
                    cursor: (s.tx.cursor + sent) as nat,
                    fin_queued: s.tx.fin_queued || fin,
                    ..s.tx
                },
                ..s
            })
        }),
        m.streams.contains_key(id) ==> m.output(id, n) == m.streams[id].output(id, n) && m.drained(
            id,
            n,
        ) == (MuxView { streams: m.streams.insert(id, m.streams[id].drained(n)), ..m }),
        !m.streams.contains_key(id) ==> m.output(id, n).len() == 0 && m.drained(id, n) == m,
{
    law_output_is_what_was_not_sent(s.tx, id, n);
}

} // verus!
