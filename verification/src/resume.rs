//! Resumable byte streams: the sender's retransmission buffer and the
//! receiver's offset tracking.
//!
//! Everything rests on one invariant: until the peer has acknowledged an
//! offset, the sender never discards a byte at or after it. After a reconnect
//! the receiver only has to say how many bytes it has, and the sender goes on
//! from exactly there.

use std::collections::VecDeque;

use bytes::{Bytes, BytesMut};
use vstd::prelude::*;
use vstd::slice::slice_subrange;

use crate::text::{decimal, push_decimal, push_text, string_from_chars};
use crate::buf::{advance_shared, buffered, content, slice, view_content};

verus! {

/// Why an acknowledgement, a resume request or a data frame was refused.
#[derive(Debug, Clone, Copy, PartialEq, Eq, Structural)]
pub enum ResumeError {
    /// The peer acknowledged more than was ever written.
    AckBeyondSent { ack: u64, sent: u64 },
    /// The peer misses bytes that were already released.
    GapUnrecoverable { peer_recv: u64, acked: u64 },
    /// A data frame starts beyond the delivered position.
    Gap { expected: u64, got: u64 },
}

impl ResumeError {
    /// The error for people to read.
    pub open spec fn text(self) -> Seq<char> {
        match self {
            ResumeError::AckBeyondSent { ack, sent } => "peer acked "@ + decimal(ack as nat)
                + " but only "@ + decimal(sent as nat) + " bytes were ever sent"@,
            ResumeError::GapUnrecoverable { peer_recv, acked } => "peer received only "@
                + decimal(peer_recv as nat) + " but buffer was already released up to "@
                + decimal(acked as nat) + "; resume impossible"@,
            ResumeError::Gap { expected, got } => "data gap: expected offset "@ + decimal(
                expected as nat,
            ) + ", got "@ + decimal(got as nat),
        }
    }

    /// The error for people to read.
    pub fn message(&self) -> (r: String)
        ensures
            r@ == self.text(),
    {
        let mut out: Vec<char> = Vec::new();
        match self {
            ResumeError::AckBeyondSent { ack, sent } => {
                push_text(&mut out, "peer acked ");
                push_decimal(&mut out, *ack);
                push_text(&mut out, " but only ");
                push_decimal(&mut out, *sent);
                push_text(&mut out, " bytes were ever sent");
            },
            ResumeError::GapUnrecoverable { peer_recv, acked } => {
                push_text(&mut out, "peer received only ");
                push_decimal(&mut out, *peer_recv);
                push_text(&mut out, " but buffer was already released up to ");
                push_decimal(&mut out, *acked);
                push_text(&mut out, "; resume impossible");
            },
            ResumeError::Gap { expected, got } => {
                push_text(&mut out, "data gap: expected offset ");
                push_decimal(&mut out, *expected);
                push_text(&mut out, ", got ");
                push_decimal(&mut out, *got);
            },
        }
        assert(out@ =~= self.text());
        string_from_chars(out)
    }
}

/// The bytes of several chunks, one after the other.
pub open spec fn joined(chunks: Seq<Bytes>) -> Seq<u8>
    decreases chunks.len(),
{
    if chunks.len() == 0 {
        seq![]
    } else {
        joined(chunks.drop_last()) + content(chunks.last())
    }
}

proof fn lemma_joined_push(chunks: Seq<Bytes>, c: Bytes)
    ensures
        joined(chunks.push(c)) == joined(chunks) + content(c),
{
    assert(chunks.push(c).drop_last() =~= chunks);
}

proof fn lemma_joined_concat(a: Seq<Bytes>, b: Seq<Bytes>)
    ensures
        joined(a + b) == joined(a) + joined(b),
    decreases b.len(),
{
    if b.len() == 0 {
        assert(a + b =~= a);
        assert(joined(a) + joined(b) =~= joined(a));
    } else {
        assert((a + b).drop_last() =~= a + b.drop_last());
        lemma_joined_concat(a, b.drop_last());
        assert(joined(a + b) =~= joined(a) + joined(b));
    }
}

proof fn lemma_joined_one(c: Bytes)
    ensures
        joined(seq![c]) == content(c),
{
    reveal_with_fuel(joined, 2);
    assert(seq![c].drop_last() =~= Seq::<Bytes>::empty());
    assert(joined(seq![c]) =~= content(c));
}

/// Splitting the chunks at `i` splits the bytes.
proof fn lemma_joined_split(chunks: Seq<Bytes>, i: int)
    requires
        0 <= i <= chunks.len(),
    ensures
        joined(chunks) == joined(chunks.take(i)) + joined(chunks.skip(i)),
{
    assert(chunks =~= chunks.take(i) + chunks.skip(i));
    lemma_joined_concat(chunks.take(i), chunks.skip(i));
}

/// What a send buffer stands for: the window of bytes that were written and
/// not yet acknowledged, and how far the network layer has got in it.
#[verifier::ext_equal]
pub struct SendView {
    /// How many bytes the peer has acknowledged.
    pub acked: nat,
    /// The absolute offset of the next byte to hand to the network layer.
    pub cursor: nat,
    /// How many unacknowledged bytes the buffer may hold.
    pub capacity: nat,
    /// The bytes from offset `acked` on.
    pub unacked: Seq<u8>,
    /// The local side has stopped writing.
    pub fin_queued: bool,
}

impl SendView {
    /// How many bytes were ever written.
    pub open spec fn end(self) -> nat {
        self.acked + self.unacked.len()
    }

    pub open spec fn valid(self) -> bool {
        &&& self.capacity > 0
        &&& self.unacked.len() <= self.capacity <= u64::MAX
        &&& self.acked <= self.cursor <= self.end()
        &&& self.end() <= u64::MAX
    }

    /// How many bytes may still be written.
    pub open spec fn writable(self) -> nat {
        (self.capacity - self.unacked.len()) as nat
    }

    /// How many of `n` offered bytes are taken.
    pub open spec fn accepts(self, n: nat) -> nat {
        if n <= self.writable() {
            n
        } else {
            self.writable()
        }
    }

    /// The buffer after writing the taken prefix of `data`.
    pub open spec fn pushed(self, data: Seq<u8>) -> SendView {
        SendView { unacked: self.unacked + data.take(self.accepts(data.len()) as int), ..self }
    }

    /// The buffer after the peer acknowledged `offset` bytes.
    pub open spec fn released(self, offset: nat) -> SendView {
        if offset <= self.acked {
            self
        } else {
            SendView {
                acked: offset,
                cursor: if self.cursor < offset {
                    offset
                } else {
                    self.cursor
                },
                unacked: self.unacked.skip(offset - self.acked),
                ..self
            }
        }
    }

    /// What acknowledging `offset` bytes answers.
    pub open spec fn ack_result(self, offset: nat) -> Result<(), ResumeError> {
        if offset > self.end() {
            Err(ResumeError::AckBeyondSent { ack: offset as u64, sent: self.end() as u64 })
        } else {
            Ok(())
        }
    }

    /// What a resume request for `peer_recv` answers: how many bytes are to be
    /// sent, or why the stream cannot go on.
    pub open spec fn rewind_result(self, peer_recv: nat) -> Result<nat, ResumeError> {
        if peer_recv < self.acked {
            Err(
                ResumeError::GapUnrecoverable {
                    peer_recv: peer_recv as u64,
                    acked: self.acked as u64,
                },
            )
        } else if peer_recv > self.end() {
            Err(ResumeError::AckBeyondSent { ack: peer_recv as u64, sent: self.end() as u64 })
        } else {
            Ok((self.end() - peer_recv) as nat)
        }
    }

    /// The buffer after a resume request for `peer_recv` was accepted.
    pub open spec fn rewound(self, peer_recv: nat) -> SendView {
        SendView { cursor: peer_recv, ..self.released(peer_recv) }
    }

    /// How many bytes the next data frame of at most `max` bytes carries.
    pub open spec fn unsent_len(self, max: nat) -> nat {
        if self.end() - self.cursor <= max {
            (self.end() - self.cursor) as nat
        } else {
            max
        }
    }

    /// The bytes of the next data frame of at most `max` bytes.
    pub open spec fn unsent(self, max: nat) -> Seq<u8> {
        self.unacked.subrange(
            self.cursor - self.acked,
            self.cursor - self.acked + self.unsent_len(max),
        )
    }

    /// The buffer after the next data frame of at most `max` bytes was taken.
    pub open spec fn advanced(self, max: nat) -> SendView {
        SendView { cursor: self.cursor + self.unsent_len(max), ..self }
    }
}

/// The sender's retransmission buffer.
#[derive(Debug)]
pub struct SendBuffer {
    acked: u64,
    cursor: u64,
    capacity: u64,
    chunks: VecDeque<Bytes>,
    buffered: u64,
    fin_queued: bool,
}

impl View for SendBuffer {
    type V = SendView;

    closed spec fn view(&self) -> SendView {
        SendView {
            acked: self.acked as nat,
            cursor: self.cursor as nat,
            capacity: self.capacity as nat,
            unacked: joined(self.chunks@),
            fin_queued: self.fin_queued,
        }
    }
}

impl SendBuffer {
    pub closed spec fn counted(&self) -> bool {
        &&& self.buffered == joined(self.chunks@).len()
        &&& forall|i: int|
            #![trigger self.chunks@[i]]
            0 <= i < self.chunks@.len() ==> content(self.chunks@[i]).len() > 0
    }

    pub open spec fn wf(&self) -> bool {
        self@.valid() && self.counted()
    }

    /// An empty buffer of `capacity` bytes.
    pub fn new(capacity: u64) -> (r: SendBuffer)
        requires
            capacity > 0,
        ensures
            r.wf(),
            r@ == (SendView {
                acked: 0,
                cursor: 0,
                capacity: capacity as nat,
                unacked: seq![],
                fin_queued: false,
            }),
    {
        SendBuffer {
            acked: 0,
            cursor: 0,
            capacity,
            chunks: VecDeque::new(),
            buffered: 0,
            fin_queued: false,
        }
    }

    /// How many bytes the peer has acknowledged.
    pub fn acked(&self) -> (r: u64)
        requires
            self.wf(),
        ensures
            r == self@.acked,
    {
        self.acked
    }

    /// The absolute offset of the next byte to be written.
    pub fn write_offset(&self) -> (r: u64)
        requires
            self.wf(),
        ensures
            r == self@.end(),
    {
        self.acked + self.buffered
    }

    /// The absolute offset of the next byte to hand to the network layer.
    pub fn send_cursor(&self) -> (r: u64)
        requires
            self.wf(),
        ensures
            r == self@.cursor,
    {
        self.cursor
    }

    /// How many bytes may be written without leaving the window.
    pub fn writable(&self) -> (r: u64)
        requires
            self.wf(),
        ensures
            r == self@.writable(),
    {
        self.capacity - self.buffered
    }

    /// Whether bytes were written that the network layer has not got.
    pub fn has_pending(&self) -> (r: bool)
        requires
            self.wf(),
        ensures
            r == (self@.cursor < self@.end()),
    {
        self.cursor < self.write_offset()
    }

    /// Whether every byte written was acknowledged.
    pub fn is_fully_acked(&self) -> (r: bool)
        requires
            self.wf(),
        ensures
            r == (self@.unacked.len() == 0),
    {
        self.buffered == 0
    }

    /// Records that the local side has stopped writing.
    pub fn mark_fin(&mut self)
        requires
            old(self).wf(),
        ensures
            final(self).wf(),
            final(self)@ == (SendView { fin_queued: true, ..old(self)@ }),
    {
        self.fin_queued = true;
    }

    /// Whether the local side has stopped writing.
    pub fn fin_queued(&self) -> (r: bool)
        requires
            self.wf(),
        ensures
            r == self@.fin_queued,
    {
        self.fin_queued
    }

    /// Writes application data.
    ///
    /// Gives how many bytes were taken: as many as the window has room for. At
    /// zero the caller has to stop reading from its local socket.
    pub fn push(&mut self, data: &[u8]) -> (n: usize)
        requires
            old(self).wf(),
            old(self)@.end() + old(self)@.accepts(data@.len()) <= u64::MAX,
        ensures
            final(self).wf(),
            n == old(self)@.accepts(data@.len()),
            final(self)@ == old(self)@.pushed(data@),
    {
        let room: u64 = self.writable();
        let n: usize = if room < data.len() as u64 {
            room as usize
        } else {
            data.len()
        };
        let ghost before = self.chunks@;
        if n > 0 {
            let chunk = Bytes::copy_from_slice(slice_subrange(data, 0, n));
            proof {
                lemma_joined_push(before, chunk);
                assert(data@.subrange(0, n as int) =~= data@.take(n as int));
            }
            self.chunks.push_back(chunk);
            self.buffered = self.buffered + n as u64;
        } else {
            assert(joined(before) + data@.take(0) =~= joined(before));
        }
        n
    }

    /// The next bytes to send, at most `max` of them, with the offset of the
    /// first. They stay in the buffer until they are acknowledged.
    pub fn next_unsent(&mut self, max: usize) -> (r: Option<(u64, Bytes)>)
        requires
            old(self).wf(),
            old(self)@.unsent_len(max as nat) <= isize::MAX,
        ensures
            final(self).wf(),
            r is Some <==> old(self)@.unsent_len(max as nat) > 0,
            r matches Some((offset, data)) ==> offset == old(self)@.cursor && content(data) == old(
                self,
            )@.unsent(max as nat),
            final(self)@ == old(self)@.advanced(max as nat),
    {
        if !self.has_pending() || max == 0 {
            return None;
        }
        let offset: u64 = self.cursor;
        let ghost all = joined(self.chunks@);
        let ghost start = (self.cursor - self.acked) as int;
        let mut skip: u64 = self.cursor - self.acked;
        let mut taken: usize = 0;
        let mut collected: Vec<Bytes> = Vec::new();
        let mut i: usize = 0;
        proof {
            assert(self.chunks@.take(0) =~= Seq::<Bytes>::empty());
            assert(all.subrange(start, start) =~= Seq::<u8>::empty());
        }
        while i < self.chunks.len() && taken < max
            invariant
                i <= self.chunks@.len(),
                taken <= max,
                all == joined(self.chunks@),
                0 <= start < all.len() <= u64::MAX,
                start + taken <= all.len(),
                joined(collected@) == all.subrange(start, start + taken),
                ({
                    let done = joined(self.chunks@.take(i as int)).len();
                    &&& done <= all.len()
                    &&& taken == 0 ==> done <= start && skip == start - done
                        && collected@.len() == 0
                    &&& taken > 0 ==> skip == 0 && collected@.len() > 0
                    &&& 0 < taken < max ==> start + taken == done
                }),
                self.counted(),
            decreases self.chunks@.len() - i,
        {
            let chunk = &self.chunks[i];
            let len: usize = chunk.len();
            let ghost done = joined(self.chunks@.take(i as int)).len();
            let ghost shown = content(*chunk);
            proof {
                assert(self.chunks@.take(i + 1) =~= self.chunks@.take(i as int).push(*chunk));
                lemma_joined_push(self.chunks@.take(i as int), *chunk);
                lemma_joined_split(self.chunks@, i as int);
                lemma_joined_split(self.chunks@, i + 1);
                assert forall|k: int| 0 <= k < shown.len() implies shown[k] == #[trigger] all[done
                    + k] by {
                    assert(joined(self.chunks@.take(i + 1))[done + k] == shown[k]);
                }
            }
            if skip >= len as u64 {
                skip = skip - len as u64;
            } else {
                let from: usize = skip as usize;
                skip = 0;
                let want: usize = max - taken;
                let avail: usize = len - from;
                let n: usize = if avail < want {
                    avail
                } else {
                    want
                };
                let part = slice(chunk, from, from + n);
                proof {
                    lemma_joined_push(collected@, part);
                    assert(all.subrange(start, start + taken + n) =~= all.subrange(
                        start,
                        start + taken,
                    ) + content(part));
                }
                collected.push(part);
                taken = taken + n;
            }
            i = i + 1;
        }
        proof {
            if i == self.chunks@.len() {
                assert(self.chunks@.take(i as int) =~= self.chunks@);
            }
            assert(taken == self@.unsent_len(max as nat));
        }
        let out = if collected.len() == 1 {
            proof {
                assert(collected@ =~= seq![collected@[0]]);
                lemma_joined_one(collected@[0]);
            }
            collected.swap_remove(0)
        } else {
            let mut merged = BytesMut::new();
            let mut j: usize = 0;
            proof {
                assert(collected@.take(0) =~= Seq::<Bytes>::empty());
            }
            while j < collected.len()
                invariant
                    j <= collected@.len(),
                    joined(collected@).len() == taken <= isize::MAX,
                    buffered(merged) == joined(collected@.take(j as int)),
                decreases collected@.len() - j,
            {
                proof {
                    assert(collected@.take(j + 1) =~= collected@.take(j as int).push(
                        collected@[j as int],
                    ));
                    lemma_joined_push(collected@.take(j as int), collected@[j as int]);
                    lemma_joined_split(collected@, j + 1);
                }
                merged.extend_from_slice(view_content(&collected[j]));
                j = j + 1;
            }
            proof {
                assert(collected@.take(j as int) =~= collected@);
            }
            merged.freeze()
        };
        self.cursor = self.cursor + taken as u64;
        Some((offset, out))
    }

    /// Takes a cumulative acknowledgement: the first `offset` bytes have
    /// arrived and are released. An old acknowledgement changes nothing.
    pub fn ack(&mut self, offset: u64) -> (r: Result<(), ResumeError>)
        requires
            old(self).wf(),
        ensures
            final(self).wf(),
            r == old(self)@.ack_result(offset as nat),
            final(self)@ == (if r is Ok {
                old(self)@.released(offset as nat)
            } else {
                old(self)@
            }),
    {
        if offset < self.acked {
            return Ok(());
        }
        if offset > self.write_offset() {
            return Err(ResumeError::AckBeyondSent { ack: offset, sent: self.write_offset() });
        }
        let ghost all = joined(self.chunks@);
        let ghost total = (offset - self.acked) as int;
        let mut release: u64 = offset - self.acked;
        assert(all.skip(0) =~= all);
        while release > 0
            invariant
                release <= total <= all.len(),
                joined(self.chunks@) == all.skip(total - release),
                self.counted(),
                self.acked == old(self).acked,
                self.cursor == old(self).cursor,
                self.capacity == old(self).capacity,
                self.fin_queued == old(self).fin_queued,
            decreases release,
        {
            let ghost chunks = self.chunks@;
            proof {
                assert(all.skip(total - release).len() >= release);
                if chunks.len() == 0 {
                    assert(joined(chunks).len() == 0);
                }
                assert(chunks =~= seq![chunks[0]] + chunks.subrange(1, chunks.len() as int));
                lemma_joined_concat(seq![chunks[0]], chunks.subrange(1, chunks.len() as int));
                lemma_joined_one(chunks[0]);
            }
            let front_len: u64 = self.chunks[0].len() as u64;
            match self.chunks.pop_front() {
                Some(mut front) => {
                    let ghost rest = joined(self.chunks@);
                    assert(all.skip(total - release) == content(front) + rest);
                    if front_len <= release {
                        self.buffered = self.buffered - front_len;
                        proof {
                            assert(rest =~= (content(front) + rest).skip(front_len as int));
                            assert(rest =~= all.skip(total - release + front_len));
                        }
                        release = release - front_len;
                    } else {
                        let ghost whole = content(front);
                        advance_shared(&mut front, release as usize);
                        proof {
                            lemma_joined_one(front);
                            lemma_joined_concat(seq![front], self.chunks@);
                            assert(whole.skip(release as int) + rest =~= (whole + rest).skip(
                                release as int,
                            ));
                            assert(whole.skip(release as int) + rest =~= all.skip(total));
                        }
                        self.buffered = self.buffered - release;
                        self.chunks.push_front(front);
                        release = 0;
                    }
                },
                None => {},
            }
        }
        self.acked = offset;
        if self.cursor < self.acked {
            self.cursor = self.acked;
        }
        Ok(())
    }

    /// Goes back to where the peer stands after a reconnect: `peer_recv` bytes
    /// have arrived there, so those are released and the rest is to be sent.
    /// Gives how many bytes that is.
    pub fn rewind_to(&mut self, peer_recv: u64) -> (r: Result<u64, ResumeError>)
        requires
            old(self).wf(),
        ensures
            final(self).wf(),
            match old(self)@.rewind_result(peer_recv as nat) {
                Ok(gap) => r == Ok::<u64, ResumeError>(gap as u64) && final(self)@ == old(
                    self,
                )@.rewound(peer_recv as nat),
                Err(e) => r == Err::<u64, ResumeError>(e) && final(self)@ == old(self)@,
            },
    {
        if peer_recv < self.acked {
            return Err(ResumeError::GapUnrecoverable { peer_recv, acked: self.acked });
        }
        if peer_recv > self.write_offset() {
            return Err(ResumeError::AckBeyondSent { ack: peer_recv, sent: self.write_offset() });
        }
        match self.ack(peer_recv) {
            Ok(()) => {},
            Err(e) => {
                return Err(e);
            },
        }
        self.cursor = peer_recv;
        Ok(self.write_offset() - self.cursor)
    }
}

/// What a receive tracker stands for.
#[verifier::ext_equal]
pub struct RecvView {
    /// How many bytes were delivered to the application, in order.
    pub delivered: nat,
    /// Where the peer ended its stream, once it has.
    pub fin_at: Option<nat>,
}

impl RecvView {
    /// A tracker that has delivered nothing.
    pub open spec fn init() -> RecvView {
        RecvView { delivered: 0, fin_at: None }
    }

    /// The tracker after the peer ended its stream.
    pub open spec fn ended(self) -> RecvView {
        RecvView { fin_at: Some(self.delivered), ..self }
    }

    /// What a data frame at `offset` gives: the bytes to deliver, nothing
    /// where all of them were delivered before, or the hole in front of it.
    pub open spec fn accept_result(self, offset: nat, data: Seq<u8>) -> Result<
        Option<Seq<u8>>,
        ResumeError,
    > {
        if offset > self.delivered {
            Err(ResumeError::Gap { expected: self.delivered as u64, got: offset as u64 })
        } else if offset + data.len() <= self.delivered {
            Ok(None)
        } else {
            Ok(Some(data.skip(self.delivered - offset)))
        }
    }

    /// The tracker after a data frame at `offset`.
    pub open spec fn accepted(self, offset: nat, data: Seq<u8>) -> RecvView {
        if offset <= self.delivered < offset + data.len() {
            RecvView { delivered: offset + data.len(), ..self }
        } else {
            self
        }
    }
}

/// The receiver's offset tracking: every byte is delivered once and in order,
/// whatever a reconnect makes the sender send again.
#[derive(Debug)]
pub struct RecvTracker {
    delivered: u64,
    fin_at: Option<u64>,
}

impl View for RecvTracker {
    type V = RecvView;

    closed spec fn view(&self) -> RecvView {
        RecvView {
            delivered: self.delivered as nat,
            fin_at: match self.fin_at {
                Some(at) => Some(at as nat),
                None => None,
            },
        }
    }
}

impl Default for RecvTracker {
    fn default() -> (r: RecvTracker)
        ensures
            r@ == RecvView::init(),
    {
        RecvTracker { delivered: 0, fin_at: None }
    }
}

impl RecvTracker {
    /// A tracker that has delivered nothing.
    pub fn new() -> (r: RecvTracker)
        ensures
            r@ == RecvView::init(),
    {
        RecvTracker::default()
    }

    /// How many bytes were delivered: the value that an `Ack` carries.
    pub fn delivered(&self) -> (r: u64)
        ensures
            r == self@.delivered,
    {
        self.delivered
    }

    /// Takes a data frame and gives the bytes to deliver, if any are new.
    pub fn accept(&mut self, offset: u64, data: Bytes) -> (r: Result<Option<Bytes>, ResumeError>)
        requires
            offset <= old(self)@.delivered ==> offset + content(data).len() <= u64::MAX,
        ensures
            match old(self)@.accept_result(offset as nat, content(data)) {
                Ok(Some(fresh)) => r matches Ok(Some(b)) && content(b) == fresh,
                Ok(None) => r == Ok::<Option<Bytes>, ResumeError>(None),
                Err(e) => r == Err::<Option<Bytes>, ResumeError>(e),
            },
            final(self)@ == old(self)@.accepted(offset as nat, content(data)),
    {
        if offset > self.delivered {
            return Err(ResumeError::Gap { expected: self.delivered, got: offset });
        }
        let len: usize = data.len();
        let end: u64 = offset + len as u64;
        if end <= self.delivered {
            return Ok(None);
        }
        let skip: usize = (self.delivered - offset) as usize;
        let fresh = slice(&data, skip, len);
        assert(content(fresh) =~= content(data).skip(skip as int));
        self.delivered = end;
        Ok(Some(fresh))
    }

    /// Records that the peer ended its stream at the delivered position.
    pub fn mark_fin(&mut self)
        ensures
            final(self)@ == old(self)@.ended(),
    {
        self.fin_at = Some(self.delivered);
    }

    /// Whether the peer ended its stream.
    pub fn fin_received(&self) -> (r: bool)
        ensures
            r == (self@.fin_at is Some),
    {
        self.fin_at.is_some()
    }
}

/// One direction of a stream, seen from outside: both ends, every byte that
/// was written at the one and every byte that was delivered at the other.
#[verifier::ext_equal]
pub struct Link {
    pub sender: SendView,
    pub receiver: RecvView,
    pub written: Seq<u8>,
    pub delivered: Seq<u8>,
}

/// What can happen to a link.
pub enum LinkStep {
    /// The application writes; as much as fits is taken.
    Write { data: Seq<u8> },
    /// The sender hands at most `max` bytes to the network, which loses them.
    SendLost { max: nat },
    /// The sender hands at most `max` bytes to the network, which carries them.
    SendCarried { max: nat },
    /// A data frame that was sent at some time arrives, late or again.
    ArriveAgain { offset: nat, len: nat },
    /// An acknowledgement arrives that the receiver sent at some time.
    AckArrives { offset: nat },
    /// The connection was rebuilt and the sender goes back to where the
    /// receiver stands.
    Reconnect,
}

impl Link {
    pub open spec fn init(capacity: nat) -> Link {
        Link {
            sender: SendView { acked: 0, cursor: 0, capacity, unacked: seq![], fin_queued: false },
            receiver: RecvView::init(),
            written: seq![],
            delivered: seq![],
        }
    }

    /// The sender holds every written byte from `acked` on, the receiver has
    /// delivered a prefix of what was written, and no byte was released that
    /// it lacks.
    pub open spec fn inv(self) -> bool {
        &&& self.sender.valid()
        &&& self.sender.end() == self.written.len()
        &&& self.sender.unacked == self.written.skip(self.sender.acked as int)
        &&& self.sender.acked <= self.receiver.delivered <= self.written.len()
        &&& self.delivered == self.written.take(self.receiver.delivered as int)
    }

    /// The link after a data frame reached the receiver.
    pub open spec fn arrive(self, offset: nat, data: Seq<u8>) -> Link {
        Link {
            receiver: self.receiver.accepted(offset, data),
            delivered: match self.receiver.accept_result(offset, data) {
                Ok(Some(fresh)) => self.delivered + fresh,
                _ => self.delivered,
            },
            ..self
        }
    }

    /// Whether the step can happen.
    pub open spec fn allows(self, step: LinkStep) -> bool {
        match step {
            LinkStep::Write { data } => self.sender.end() + self.sender.accepts(data.len())
                <= u64::MAX,
            LinkStep::ArriveAgain { offset, len } => offset + len <= self.written.len(),
            LinkStep::AckArrives { offset } => offset <= self.receiver.delivered,
            _ => true,
        }
    }

    /// The link after a step.
    pub open spec fn next(self, step: LinkStep) -> Link {
        match step {
            LinkStep::Write { data } => Link {
                sender: self.sender.pushed(data),
                written: self.written + data.take(self.sender.accepts(data.len()) as int),
                ..self
            },
            LinkStep::SendLost { max } => Link { sender: self.sender.advanced(max), ..self },
            LinkStep::SendCarried { max } => Link {
                sender: self.sender.advanced(max),
                ..self.arrive(self.sender.cursor, self.sender.unsent(max))
            },
            LinkStep::ArriveAgain { offset, len } => self.arrive(
                offset,
                self.written.subrange(offset as int, (offset + len) as int),
            ),
            LinkStep::AckArrives { offset } => Link {
                sender: self.sender.released(offset),
                ..self
            },
            LinkStep::Reconnect => Link {
                sender: self.sender.rewound(self.receiver.delivered),
                ..self
            },
        }
    }

    /// The link after the sender sent everything that it holds, in frames of
    /// at most `max` bytes, and all of it was carried.
    pub open spec fn drained(self, max: nat) -> Link
        decreases self.sender.end() - self.sender.cursor,
    {
        if max == 0 || self.sender.cursor >= self.sender.end() {
            self
        } else {
            self.next(LinkStep::SendCarried { max }).drained(max)
        }
    }
}

/// A new link has lost nothing.
pub proof fn law_new_link_is_sound(capacity: nat)
    requires
        0 < capacity <= u64::MAX,
    ensures
        Link::init(capacity).inv(),
{
    assert(Seq::<u8>::empty().skip(0) =~= Seq::<u8>::empty());
    assert(Seq::<u8>::empty().take(0) =~= Seq::<u8>::empty());
}

/// Data that was sent carries the bytes that were written at its offset.
pub proof fn law_frames_carry_what_was_written(l: Link, max: nat)
    requires
        l.inv(),
    ensures
        l.sender.unsent(max) == l.written.subrange(
            l.sender.cursor as int,
            (l.sender.cursor + l.sender.unsent_len(max)) as int,
        ),
{
    assert(l.sender.unsent(max) =~= l.written.subrange(
        l.sender.cursor as int,
        (l.sender.cursor + l.sender.unsent_len(max)) as int,
    ));
}

proof fn lemma_arrive_keeps_prefix(l: Link, offset: nat, data: Seq<u8>)
    requires
        l.inv(),
        offset + data.len() <= l.written.len(),
        data == l.written.subrange(offset as int, (offset + data.len()) as int),
    ensures
        l.arrive(offset, data).inv(),
{
    let r = l.arrive(offset, data);
    if offset <= l.receiver.delivered < offset + data.len() {
        let fresh = data.skip(l.receiver.delivered - offset);
        assert(l.delivered + fresh =~= l.written.take((offset + data.len()) as int));
    }
}

/// Nothing that can happen to a link loses, repeats or reorders a byte: what
/// was delivered stays a prefix of what was written, and the sender keeps
/// every byte that is missing.
pub proof fn law_no_step_loses_a_byte(l: Link, step: LinkStep)
    requires
        l.inv(),
        l.allows(step),
    ensures
        l.next(step).inv(),
{
    match step {
        LinkStep::Write { data } => {
            let n = l.sender.accepts(data.len()) as int;
            let w = l.written + data.take(n);
            assert(w.skip(l.sender.acked as int) =~= l.sender.unacked + data.take(n));
            assert(w.take(l.receiver.delivered as int) =~= l.delivered);
        },
        LinkStep::SendLost { max } => {},
        LinkStep::SendCarried { max } => {
            law_frames_carry_what_was_written(l, max);
            lemma_arrive_keeps_prefix(l, l.sender.cursor, l.sender.unsent(max));
        },
        LinkStep::ArriveAgain { offset, len } => {
            lemma_arrive_keeps_prefix(
                l,
                offset,
                l.written.subrange(offset as int, (offset + len) as int),
            );
        },
        LinkStep::AckArrives { offset } => {
            if offset > l.sender.acked {
                assert(l.sender.unacked.skip(offset - l.sender.acked) =~= l.written.skip(
                    offset as int,
                ));
            }
        },
        LinkStep::Reconnect => {
            let d = l.receiver.delivered;
            if d > l.sender.acked {
                assert(l.sender.unacked.skip(d - l.sender.acked) =~= l.written.skip(d as int));
            }
        },
    }
}

/// A resume request from the receiver of a link is always met, and asks for
/// exactly the bytes that were not delivered.
pub proof fn law_reconnect_resends_exactly_the_gap(l: Link)
    requires
        l.inv(),
    ensures
        l.sender.rewind_result(l.receiver.delivered) == Ok::<nat, ResumeError>(
            (l.written.len() - l.receiver.delivered) as nat,
        ),
        l.next(LinkStep::Reconnect).sender.cursor == l.receiver.delivered,
        l.next(LinkStep::Reconnect).sender.unsent(u64::MAX as nat) == l.written.skip(
            l.receiver.delivered as int,
        ),
{
    law_no_step_loses_a_byte(l, LinkStep::Reconnect);
    let r = l.next(LinkStep::Reconnect);
    law_frames_carry_what_was_written(r, u64::MAX as nat);
    assert(r.written.subrange(r.sender.cursor as int, r.written.len() as int) =~= l.written.skip(
        l.receiver.delivered as int,
    ));
}

/// After a reconnect, sending what the buffer holds delivers every byte that
/// was ever written, each once and in order, however much was lost before.
pub proof fn law_reconnect_and_drain_delivers_everything(l: Link, max: nat)
    requires
        l.inv(),
        max > 0,
    ensures
        l.next(LinkStep::Reconnect).drained(max).delivered == l.written,
        l.next(LinkStep::Reconnect).drained(max).written == l.written,
{
    law_no_step_loses_a_byte(l, LinkStep::Reconnect);
    lemma_drain(l.next(LinkStep::Reconnect), max);
}

proof fn lemma_drain(l: Link, max: nat)
    requires
        l.inv(),
        max > 0,
        l.sender.cursor == l.receiver.delivered,
    ensures
        l.drained(max).delivered == l.written,
        l.drained(max).written == l.written,
    decreases l.sender.end() - l.sender.cursor,
{
    if l.sender.cursor >= l.sender.end() {
        assert(l.delivered =~= l.written);
    } else {
        let next = l.next(LinkStep::SendCarried { max });
        law_no_step_loses_a_byte(l, LinkStep::SendCarried { max });
        lemma_drain(next, max);
    }
}

/// An acknowledgement that was taken before changes nothing when it comes
/// again, and neither does an older one.
pub proof fn law_repeated_ack_changes_nothing(v: SendView, offset: nat, older: nat)
    requires
        v.valid(),
        offset <= v.end(),
        older <= offset,
    ensures
        v.released(offset).released(older) == v.released(offset),
        v.released(offset).ack_result(older) is Ok,
{
}

/// A data frame that was taken before delivers nothing when it comes again.
pub proof fn law_repeated_data_delivers_nothing(v: RecvView, offset: nat, data: Seq<u8>)
    requires
        offset <= v.delivered,
    ensures
        v.accepted(offset, data).accept_result(offset, data) == Ok::<
            Option<Seq<u8>>,
            ResumeError,
        >(None),
{
}

/// A call that changes a receive tracker.
pub enum RecvCall {
    Accept { offset: nat, data: Seq<u8> },
    MarkFin,
}

impl RecvView {
    /// The tracker after some calls.
    pub open spec fn after(self, calls: Seq<RecvCall>) -> RecvView
        decreases calls.len(),
    {
        if calls.len() == 0 {
            self
        } else {
            let before = self.after(calls.drop_last());
            match calls.last() {
                RecvCall::Accept { offset, data } => before.accepted(offset, data),
                RecvCall::MarkFin => before.ended(),
            }
        }
    }

    /// All bytes that some calls gave to deliver, in order.
    pub open spec fn handed_out(self, calls: Seq<RecvCall>) -> Seq<u8>
        decreases calls.len(),
    {
        if calls.len() == 0 {
            seq![]
        } else {
            let earlier = self.handed_out(calls.drop_last());
            match calls.last() {
                RecvCall::Accept { offset, data } => match self.after(
                    calls.drop_last(),
                ).accept_result(offset, data) {
                    Ok(Some(fresh)) => earlier + fresh,
                    _ => earlier,
                },
                RecvCall::MarkFin => earlier,
            }
        }
    }
}

/// The delivered count is the number of bytes that were given to deliver, and
/// never goes back. The end of the stream leaves it alone.
pub proof fn law_delivered_counts_what_was_handed_out(calls: Seq<RecvCall>, earlier: int)
    requires
        0 <= earlier <= calls.len(),
    ensures
        RecvView::init().after(calls).delivered == RecvView::init().handed_out(calls).len(),
        RecvView::init().after(calls.take(earlier)).delivered <= RecvView::init().after(
            calls,
        ).delivered,
        RecvView::init().after(calls.push(RecvCall::MarkFin)).delivered == RecvView::init().after(
            calls,
        ).delivered,
    decreases calls.len(),
{
    assert(calls.push(RecvCall::MarkFin).drop_last() =~= calls);
    if earlier == calls.len() {
        assert(calls.take(earlier) =~= calls);
    }
    if calls.len() > 0 {
        let before = calls.drop_last();
        let n = if earlier < calls.len() {
            earlier
        } else {
            earlier - 1
        };
        assert(before.take(n) =~= calls.take(n));
        law_delivered_counts_what_was_handed_out(before, n);
    }
}

/// The end of the stream is known exactly from the call on that told of it: it
/// is never known before, and never forgotten.
pub proof fn law_end_of_stream_latches(calls: Seq<RecvCall>, earlier: int)
    requires
        0 <= earlier <= calls.len(),
    ensures
        RecvView::init().after(calls).fin_at is Some <==> exists|i: int|
            0 <= i < calls.len() && #[trigger] calls[i] is MarkFin,
        RecvView::init().after(calls.take(earlier)).fin_at is Some ==> RecvView::init().after(
            calls,
        ).fin_at is Some,
    decreases calls.len(),
{
    if earlier == calls.len() {
        assert(calls.take(earlier) =~= calls);
    }
    if calls.len() > 0 {
        let before = calls.drop_last();
        let n = if earlier < calls.len() {
            earlier
        } else {
            earlier - 1
        };
        assert(before.take(n) =~= calls.take(n));
        law_end_of_stream_latches(before, n);
        if RecvView::init().after(before).fin_at is Some {
            let i = choose|i: int| 0 <= i < before.len() && #[trigger] before[i] is MarkFin;
            assert(calls[i] is MarkFin);
        }
        if calls.last() is MarkFin {
            assert(calls[calls.len() - 1] is MarkFin);
        }
        if exists|i: int| 0 <= i < calls.len() && #[trigger] calls[i] is MarkFin {
            let i = choose|i: int| 0 <= i < calls.len() && #[trigger] calls[i] is MarkFin;
            if i < before.len() {
                assert(before[i] is MarkFin);
            }
        }
    }
}

impl Link {
    /// The link after some steps.
    pub open spec fn ran(self, steps: Seq<LinkStep>) -> Link
        decreases steps.len(),
    {
        if steps.len() == 0 {
            self
        } else {
            self.ran(steps.drop_last()).next(steps.last())
        }
    }

    /// Whether a byte was lost since the sender last went back.
    pub open spec fn lossy(self, steps: Seq<LinkStep>) -> bool
        decreases steps.len(),
    {
        if steps.len() == 0 {
            false
        } else {
            match steps.last() {
                LinkStep::SendLost { max } => self.lossy(steps.drop_last()) || self.ran(
                    steps.drop_last(),
                ).sender.unsent_len(max) > 0,
                LinkStep::Reconnect => false,
                _ => self.lossy(steps.drop_last()),
            }
        }
    }

    /// Whether the network keeps the order of what it carries: behind a lost
    /// byte nothing gets through until the sender goes back, and what comes
    /// again had its beginning delivered before.
    pub open spec fn orderly(self, steps: Seq<LinkStep>) -> bool
        decreases steps.len(),
    {
        steps.len() > 0 ==> {
            let l = self.ran(steps.drop_last());
            &&& self.orderly(steps.drop_last())
            &&& l.allows(steps.last())
            &&& match steps.last() {
                LinkStep::SendCarried { .. } => !self.lossy(steps.drop_last()),
                LinkStep::ArriveAgain { offset, .. } => offset <= l.receiver.delivered,
                _ => true,
            }
        }
    }

    /// Whether no call that a step makes fails. What was delivered in full
    /// before gives nothing when it comes again.
    pub open spec fn succeeds(self, step: LinkStep) -> bool {
        match step {
            LinkStep::SendCarried { max } => self.receiver.accept_result(
                self.sender.cursor,
                self.sender.unsent(max),
            ) is Ok,
            LinkStep::ArriveAgain { offset, len } => {
                let r = self.receiver.accept_result(
                    offset,
                    self.written.subrange(offset as int, (offset + len) as int),
                );
                &&& r is Ok
                &&& offset + len <= self.receiver.delivered ==> r->Ok_0 is None
            },
            LinkStep::AckArrives { offset } => self.sender.ack_result(offset) is Ok,
            LinkStep::Reconnect => self.sender.rewind_result(self.receiver.delivered) is Ok,
            _ => true,
        }
    }
}

/// Over a network that keeps the order no call ever fails, through any number
/// of losses and reconnects. What was delivered is at all times what was
/// written up to there. Once all is sent, and nothing was lost since the last
/// reconnect, it is everything.
pub proof fn law_orderly_delivery_never_errs(capacity: nat, steps: Seq<LinkStep>)
    requires
        0 < capacity <= u64::MAX,
        Link::init(capacity).orderly(steps),
    ensures
        ({
            let start = Link::init(capacity);
            let l = start.ran(steps);
            &&& forall|i: int|
                0 <= i < steps.len() ==> (#[trigger] start.ran(steps.take(i))).succeeds(steps[i])
            &&& l.inv()
            &&& l.delivered == l.written.take(l.receiver.delivered as int)
            &&& !start.lossy(steps) ==> l.sender.cursor <= l.receiver.delivered
            &&& !start.lossy(steps) && l.sender.cursor == l.sender.end() ==> l.delivered
                == l.written
        }),
    decreases steps.len(),
{
    let start = Link::init(capacity);
    if steps.len() == 0 {
        law_new_link_is_sound(capacity);
    } else {
        let before = steps.drop_last();
        let l = start.ran(before);
        law_orderly_delivery_never_errs(capacity, before);
        law_no_step_loses_a_byte(l, steps.last());
        assert(l.succeeds(steps.last()));
        assert forall|i: int| 0 <= i < steps.len() implies (#[trigger] start.ran(
            steps.take(i),
        )).succeeds(steps[i]) by {
            if i < before.len() {
                assert(before.take(i) =~= steps.take(i));
                assert(before[i] == steps[i]);
            } else {
                assert(steps.take(i) =~= before);
            }
        }
    }
    let l = start.ran(steps);
    if l.receiver.delivered == l.written.len() {
        assert(l.delivered =~= l.written);
    }
}

/// A write is taken as far as the window reaches: what is held afterwards is
/// what was held before followed by the written bytes, cut off at the window.
/// Nothing is sent or released by it.
pub proof fn law_writes_fill_the_window(v: SendView, data: Seq<u8>)
    requires
        v.valid(),
    ensures
        ({
            let held = v.unacked + data;
            let w = v.pushed(data);
            let taken = v.accepts(data.len());
            &&& held.len() <= v.capacity ==> taken == data.len() && w.unacked == held
            &&& held.len() > v.capacity ==> w.unacked == held.take(v.capacity as int)
            &&& w.unacked.len() == v.unacked.len() + taken
            &&& v.unacked.len() + v.writable() == v.capacity
            &&& w == (SendView { unacked: w.unacked, ..v })
        }),
{
    let held = v.unacked + data;
    if held.len() > v.capacity {
        assert(v.pushed(data).unacked =~= held.take(v.capacity as int));
    } else {
        assert(data.take(data.len() as int) =~= data);
    }
}

/// Sending takes the bytes that follow those sent before, as many as are asked
/// for and no more than there are, and moves on by just as many.
pub proof fn law_sending_takes_the_next_bytes(v: SendView, max: nat)
    requires
        v.valid(),
    ensures
        ({
            let sent = v.unsent(max);
            let left = v.acked + v.unacked.len() - v.cursor;
            &&& sent.len() == if max < left {
                max as int
            } else {
                left
            }
            &&& v.unsent_len(max) == sent.len()
            &&& forall|i: int|
                0 <= i < sent.len() ==> #[trigger] sent[i] == v.unacked[v.cursor - v.acked + i]
            &&& v.advanced(max) == (SendView { cursor: v.cursor + sent.len(), ..v })
        }),
{
}

/// An acknowledgement is taken exactly when it is of bytes that were written.
/// It releases the bytes in front of it and no others, and an older one none.
pub proof fn law_acks_release_what_they_name(v: SendView, offset: nat)
    requires
        v.valid(),
        offset <= u64::MAX,
    ensures
        ({
            let written = v.acked + v.unacked.len();
            let w = v.released(offset);
            &&& offset > written ==> v.ack_result(offset) == Err::<(), ResumeError>(
                ResumeError::AckBeyondSent { ack: offset as u64, sent: written as u64 },
            )
            &&& offset <= written ==> v.ack_result(offset) == Ok::<(), ResumeError>(())
            &&& offset <= v.acked ==> w == v
            &&& v.acked < offset <= written ==> w == (SendView {
                acked: offset,
                unacked: w.unacked,
                cursor: w.cursor,
                ..v
            }) && w.unacked.len() == written - offset && (forall|i: int|
                0 <= i < w.unacked.len() ==> #[trigger] w.unacked[i] == v.unacked[offset - v.acked
                    + i])
            &&& offset <= written ==> w.cursor == vstd::math::max(
                v.cursor as int,
                w.acked as int,
            )
        }),
{
}

/// After a reconnect a sender can go back exactly to the places that it still
/// holds. It goes on from there, and says how much is to be sent again.
pub proof fn law_senders_go_back_within_what_they_hold(v: SendView, peer_recv: nat)
    requires
        v.valid(),
        peer_recv <= u64::MAX,
    ensures
        ({
            let written = v.acked + v.unacked.len();
            let w = v.rewound(peer_recv);
            &&& peer_recv < v.acked ==> v.rewind_result(peer_recv) == Err::<nat, ResumeError>(
                ResumeError::GapUnrecoverable {
                    peer_recv: peer_recv as u64,
                    acked: v.acked as u64,
                },
            )
            &&& peer_recv > written ==> v.rewind_result(peer_recv) == Err::<nat, ResumeError>(
                ResumeError::AckBeyondSent { ack: peer_recv as u64, sent: written as u64 },
            )
            &&& v.acked <= peer_recv <= written ==> {
                &&& v.rewind_result(peer_recv) == Ok::<nat, ResumeError>(
                    (written - peer_recv) as nat,
                )
                &&& w.cursor == peer_recv
                &&& w.acked == peer_recv
                &&& w.unacked =~= v.unacked.skip(peer_recv - v.acked)
                &&& w.capacity == v.capacity
                &&& w.fin_queued == v.fin_queued
            }
        }),
{
}

/// Data is taken exactly when it leaves no hole, and of it exactly the bytes
/// that were not delivered before. The count moves to its end, and never back.
pub proof fn law_receivers_take_what_is_new(v: RecvView, offset: nat, data: Seq<u8>)
    ensures
        ({
            let r = v.accept_result(offset, data);
            let end = offset + data.len();
            let w = v.accepted(offset, data);
            &&& offset > v.delivered ==> w == v && r == Err::<Option<Seq<u8>>, ResumeError>(
                ResumeError::Gap { expected: v.delivered as u64, got: offset as u64 },
            )
            &&& offset <= v.delivered && end <= v.delivered ==> w == v && r == Ok::<
                Option<Seq<u8>>,
                ResumeError,
            >(None)
            &&& offset <= v.delivered < end ==> {
                &&& w == (RecvView { delivered: end, ..v })
                &&& r matches Ok(Some(fresh))
                &&& fresh.len() == end - v.delivered
                &&& forall|i: int|
                    0 <= i < fresh.len() ==> #[trigger] fresh[i] == data[v.delivered - offset + i]
            }
        }),
{
}

} // verus!
