//! The client and the helper on one stream: what one end sends is what the
//! other end takes, and after a reconnect both go on from the same place.

use vstd::prelude::*;

use crate::frame::FrameView;
use crate::helper::{send, EgressView, HelperActionView, HelperView};
use crate::mux::{reply, EffectView, MuxView, StreamView};
use crate::resume::{
    law_frames_carry_what_was_written, law_no_step_loses_a_byte,
    law_reconnect_and_drain_delivers_everything, Link, LinkStep,
};
use crate::session::{ClientSession, SessionStep};
use crate::stream::{DownlinkView, Uplink, UplinkStepView};
use crate::{DATA_CHUNK, PROTO_VERSION};

verus! {

/// The direction from the client to the target: what the client has written so
/// far, and how much of it the helper has taken.
pub open spec fn upward(m: MuxView, v: HelperView, id: u32, written: Seq<u8>) -> Link {
    Link {
        sender: m.streams[id].tx,
        receiver: v.streams[id].recv,
        written,
        delivered: written.take(v.streams[id].recv.delivered as int),
    }
}

/// The direction from the target to the client: what the target has written so
/// far, and how much of it the client has taken.
pub open spec fn downward(m: MuxView, v: HelperView, id: u32, written: Seq<u8>) -> Link {
    Link {
        sender: v.streams[id].tx,
        receiver: m.streams[id].rx,
        written,
        delivered: written.take(m.streams[id].rx.delivered as int),
    }
}

/// Whether both ends know a stream and have lost none of its bytes.
pub open spec fn sound(m: MuxView, v: HelperView, id: u32, up: Seq<u8>, down: Seq<u8>) -> bool {
    &&& m.streams.contains_key(id)
    &&& v.streams.contains_key(id)
    &&& upward(m, v, id, up).inv()
    &&& downward(m, v, id, down).inv()
}

/// The handshake leaves both ends with the same idea of the streams: either the
/// helper still holds some of this session and both ends keep theirs, or both
/// start without any.
pub proof fn law_handshake_agrees(
    session: ClientSession,
    m: MuxView,
    v: HelperView,
    session_id: Seq<u8>,
    actions: Seq<HelperActionView>,
    after: ClientSession,
    n: MuxView,
    step: SessionStep,
)
    requires
        session.resuming == (m.streams.dom().len() > 0),
        v.answers(
            FrameView::Hello { version: PROTO_VERSION, session_id, resume: session.resuming },
            actions,
        ),
        ClientSession::answers(
            session,
            m,
            FrameView::HelloAck {
                version: PROTO_VERSION,
                session_id,
                resumed: v.resumes(session_id, session.resuming),
            },
            after,
            n,
            step,
        ),
    ensures
        ({
            let resumed = v.resumes(session_id, session.resuming);
            let hello = FrameView::Hello {
                version: PROTO_VERSION,
                session_id,
                resume: session.resuming,
            };
            &&& actions.last() == send(
                FrameView::HelloAck { version: PROTO_VERSION, session_id, resumed },
            )
            &&& after.handshake_done
            &&& if resumed {
                n == m && v.after(hello) == v
            } else {
                n.streams.dom().len() == 0 && v.after(hello).streams.dom().len() == 0
            }
        }),
{
}

/// After a reconnect one question and one answer put both ends of a stream
/// where the other stands, and what they hold, sent from there to its end,
/// delivers every byte that was ever written on either side.
pub proof fn law_resume_aligns_both_ends(
    m: MuxView,
    v: HelperView,
    id: u32,
    up: Seq<u8>,
    down: Seq<u8>,
)
    requires
        sound(m, v, id, up, down),
    ensures
        ({
            let ask = FrameView::Resume {
                stream_id: id,
                recv_offset: m.streams[id].rx.delivered as u64,
            };
            let answer = FrameView::ResumeOk {
                stream_id: id,
                recv_offset: v.streams[id].recv.delivered as u64,
            };
            let v2 = v.after(ask);
            let m2 = m.applied(answer);
            &&& v.actions(ask).last() == send(answer)
            &&& m.effects(answer) == seq![
                EffectView::Resumed {
                    stream_id: id,
                    gap: (up.len() - v.streams[id].recv.delivered) as u64,
                },
            ]
            &&& sound(m2, v2, id, up, down)
            &&& m2.streams[id].tx.cursor == v2.streams[id].recv.delivered
            &&& v2.streams[id].tx.cursor == m2.streams[id].rx.delivered
            &&& upward(m2, v2, id, up).drained(DATA_CHUNK as nat).delivered == up
            &&& downward(m2, v2, id, down).drained(DATA_CHUNK as nat).delivered == down
        }),
{
    let ask = FrameView::Resume {
        stream_id: id,
        recv_offset: m.streams[id].rx.delivered as u64,
    };
    let answer = FrameView::ResumeOk {
        stream_id: id,
        recv_offset: v.streams[id].recv.delivered as u64,
    };
    let v2 = v.after(ask);
    let m2 = m.applied(answer);
    let u = upward(m, v, id, up);
    let d = downward(m, v, id, down);
    assert(upward(m2, v2, id, up) =~= u.next(LinkStep::Reconnect));
    assert(downward(m2, v2, id, down) =~= d.next(LinkStep::Reconnect));
    law_no_step_loses_a_byte(u, LinkStep::Reconnect);
    law_no_step_loses_a_byte(d, LinkStep::Reconnect);
    law_reconnect_and_drain_delivers_everything(u, DATA_CHUNK as nat);
    law_reconnect_and_drain_delivers_everything(d, DATA_CHUNK as nat);
}

/// A data frame that the client takes from its output and the helper receives
/// hands the target the next bytes that the client has written, none twice and
/// none left out.
pub proof fn law_client_data_reaches_the_target(
    m: MuxView,
    v: HelperView,
    id: u32,
    up: Seq<u8>,
    down: Seq<u8>,
)
    requires
        sound(m, v, id, up, down),
        m.streams[id].tx.cursor < m.streams[id].tx.end(),
        m.streams[id].tx.cursor <= v.streams[id].recv.delivered,
    ensures
        ({
            let s = m.streams[id];
            let f = FrameView::Data {
                stream_id: id,
                offset: s.tx.cursor as u64,
                data: s.tx.unsent(DATA_CHUNK as nat),
            };
            let m2 = m.with(id, StreamView { tx: s.tx.advanced(DATA_CHUNK as nat), ..s });
            let v2 = v.after(f);
            let before = v.streams[id].recv.delivered;
            let now = v2.streams[id].recv.delivered;
            &&& sound(m2, v2, id, up, down)
            &&& before <= now
            &&& v.actions(f) == seq![
                HelperActionView::Hand {
                    stream_id: id,
                    item: if before < now {
                        DownlinkView::Data {
                            bytes: up.subrange(before as int, now as int),
                            delivered: now as u64,
                        }
                    } else {
                        DownlinkView::Duplicate { delivered: now as u64 }
                    },
                },
            ]
        }),
{
    let s = m.streams[id];
    let f = FrameView::Data {
        stream_id: id,
        offset: s.tx.cursor as u64,
        data: s.tx.unsent(DATA_CHUNK as nat),
    };
    let m2 = m.with(id, StreamView { tx: s.tx.advanced(DATA_CHUNK as nat), ..s });
    let v2 = v.after(f);
    let u = upward(m, v, id, up);
    let step = LinkStep::SendCarried { max: DATA_CHUNK as nat };
    law_no_step_loses_a_byte(u, step);
    law_frames_carry_what_was_written(u, DATA_CHUNK as nat);
    let before = v.streams[id].recv.delivered;
    let now = v2.streams[id].recv.delivered;
    let data = s.tx.unsent(DATA_CHUNK as nat);
    assert(upward(m2, v2, id, up) =~= u.next(step));
    assert(downward(m2, v2, id, down) =~= downward(m, v, id, down));
    if before < now {
        assert(data.skip(before - s.tx.cursor) =~= up.subrange(before as int, now as int));
    }
}

/// A data frame that the helper's uplink sends and the client receives delivers
/// the next bytes that the target has written, none twice and none left out.
pub proof fn law_target_data_reaches_the_client(
    m: MuxView,
    v: HelperView,
    uplink: Uplink,
    up: Seq<u8>,
    down: Seq<u8>,
)
    requires
        sound(m, v, uplink.stream_id, up, down),
        v.streams[uplink.stream_id].tx.cursor < v.streams[uplink.stream_id].tx.end(),
        v.streams[uplink.stream_id].tx.cursor <= m.streams[uplink.stream_id].rx.delivered,
    ensures
        ({
            let id = uplink.stream_id;
            let tx = v.streams[id].tx;
            let f = FrameView::Data {
                stream_id: id,
                offset: tx.cursor as u64,
                data: tx.unsent(DATA_CHUNK as nat),
            };
            let v2 = v.with(
                id,
                EgressView { tx: tx.advanced(DATA_CHUNK as nat), ..v.streams[id] },
            );
            let m2 = m.applied(f);
            let before = m.streams[id].rx.delivered;
            let now = m2.streams[id].rx.delivered;
            let ack = reply(FrameView::Ack { stream_id: id, offset: now as u64 });
            &&& uplink.next(tx) == UplinkStepView::Send(f)
            &&& sound(m2, v2, id, up, down)
            &&& before <= now
            &&& m.effects(f) == if before < now {
                seq![
                    EffectView::Deliver {
                        stream_id: id,
                        data: down.subrange(before as int, now as int),
                    },
                    ack,
                ]
            } else {
                seq![ack]
            }
        }),
{
    let id = uplink.stream_id;
    let tx = v.streams[id].tx;
    let f = FrameView::Data {
        stream_id: id,
        offset: tx.cursor as u64,
        data: tx.unsent(DATA_CHUNK as nat),
    };
    let v2 = v.with(
        id,
        EgressView { tx: tx.advanced(DATA_CHUNK as nat), ..v.streams[id] },
    );
    let m2 = m.applied(f);
    let d = downward(m, v, id, down);
    let step = LinkStep::SendCarried { max: DATA_CHUNK as nat };
    law_no_step_loses_a_byte(d, step);
    law_frames_carry_what_was_written(d, DATA_CHUNK as nat);
    let before = m.streams[id].rx.delivered;
    let now = m2.streams[id].rx.delivered;
    let data = tx.unsent(DATA_CHUNK as nat);
    assert(downward(m2, v2, id, down) =~= d.next(step));
    assert(upward(m2, v2, id, up) =~= upward(m, v, id, up));
    if before < now {
        assert(data.skip(before - tx.cursor) =~= down.subrange(before as int, now as int));
    }
}

/// An acknowledgement of no more than the other end has taken releases nothing
/// that the other end lacks, at either end.
pub proof fn law_acks_release_only_what_arrived(
    m: MuxView,
    v: HelperView,
    id: u32,
    up: Seq<u8>,
    down: Seq<u8>,
    offset: u64,
)
    requires
        sound(m, v, id, up, down),
    ensures
        offset <= v.streams[id].recv.delivered ==> sound(
            m.applied(FrameView::Ack { stream_id: id, offset }),
            v,
            id,
            up,
            down,
        ),
        offset <= m.streams[id].rx.delivered ==> ({
            let v2 = v.after(FrameView::Ack { stream_id: id, offset });
            v2.streams.contains_key(id) ==> sound(m, v2, id, up, down)
        }),
{
    let f = FrameView::Ack { stream_id: id, offset };
    let step = LinkStep::AckArrives { offset: offset as nat };
    let u = upward(m, v, id, up);
    let d = downward(m, v, id, down);
    if offset <= v.streams[id].recv.delivered {
        law_no_step_loses_a_byte(u, step);
        assert(upward(m.applied(f), v, id, up) =~= u.next(step));
        assert(downward(m.applied(f), v, id, down) =~= d);
    }
    if offset <= m.streams[id].rx.delivered {
        law_no_step_loses_a_byte(d, step);
        let v2 = v.after(f);
        if v2.streams.contains_key(id) {
            assert(downward(m, v2, id, down) =~= d.next(step));
            assert(upward(m, v2, id, up) =~= u);
        }
    }
}

} // verus!
