//! The window-within-window-of-retransmission (WWR) state machine.
//!
//! Each endpoint keeps two independent directions. Outbound, it numbers the
//! chunks it sends, keeps them until they are acknowledged and hands them
//! out again in turn. Inbound, it buffers chunks that arrive out of order
//! and releases them in sequence.

use vstd::prelude::*;
use crate::seqnum::{
    seq_dist, seq_add, dist, next, lemma_dist_bounds, lemma_add_dist, lemma_dist_add, lemma_dist_shift,
    lemma_dist_shift_past,
};
use crate::xfer::{Ack, Chunk};

verus! {

/// One endpoint's view of a WWR session.
pub struct WwrState {
    in_win_size: u16,
    in_win_start: u32,
    in_received: Vec<Chunk>,
    in_eof: bool,
    out_win_size: u16,
    out_next_seq: u32,
    out_win_start: u32,
    out_pending: Vec<Chunk>,
    out_round_robin: usize,
    out_eof: bool,
}

/// Whether `ack` acknowledges the chunk numbered `seq`, for a sender whose
/// window started at `start`: either `seq` lies before the acknowledged
/// window start, or its bit in the mask is set.
pub open spec fn acked(start: u32, ack_start: u32, mask: Seq<bool>, seq: u32) -> bool {
    seq_dist(seq, start) < seq_dist(ack_start, start) || (1 <= seq_dist(seq, ack_start)
        <= mask.len() && mask[seq_dist(seq, ack_start) - 1])
}

/// The chunks of `s` that `ack` does not acknowledge, in their order.
pub open spec fn unacked(s: Seq<Chunk>, start: u32, ack_start: u32, mask: Seq<bool>) -> Seq<Chunk>
    decreases s.len(),
{
    if s.len() == 0 {
        s
    } else if acked(start, ack_start, mask, s.last().seq) {
        unacked(s.drop_last(), start, ack_start, mask)
    } else {
        unacked(s.drop_last(), start, ack_start, mask).push(s.last())
    }
}

/// How many chunks of `s` `ack` acknowledges.
pub open spec fn acked_count(s: Seq<Chunk>, start: u32, ack_start: u32, mask: Seq<bool>) -> nat
    decreases s.len(),
{
    if s.len() == 0 {
        0
    } else if acked(start, ack_start, mask, s.last().seq) {
        acked_count(s.drop_last(), start, ack_start, mask) + 1
    } else {
        acked_count(s.drop_last(), start, ack_start, mask)
    }
}

impl WwrState {
    /// The peer's outgoing window size.
    pub closed spec fn in_window_size(&self) -> nat {
        self.in_win_size as nat
    }

    /// The number of the next chunk expected from the peer.
    pub closed spec fn in_window_start(&self) -> u32 {
        self.in_win_start
    }

    /// The chunks received ahead of the window start.
    pub closed spec fn received(&self) -> Seq<Chunk> {
        self.in_received@
    }

    /// Whether the peer's stream has ended.
    pub closed spec fn in_ended(&self) -> bool {
        self.in_eof
    }

    /// This endpoint's outgoing window size.
    pub closed spec fn out_window_size(&self) -> nat {
        self.out_win_size as nat
    }

    /// The number that the next pushed chunk gets.
    pub closed spec fn out_next(&self) -> u32 {
        self.out_next_seq
    }

    /// The number of the oldest chunk not known to be acknowledged.
    pub closed spec fn out_window_start(&self) -> u32 {
        self.out_win_start
    }

    /// The chunks sent and not yet acknowledged.
    pub closed spec fn pending(&self) -> Seq<Chunk> {
        self.out_pending@
    }

    /// The position of the next chunk to hand out again.
    pub closed spec fn cursor(&self) -> nat {
        self.out_round_robin as nat
    }

    /// Whether this endpoint's stream has ended.
    pub closed spec fn out_ended(&self) -> bool {
        self.out_eof
    }

    /// The chunks in flight: from the window start up to the next number.
    pub open spec fn in_flight(&self) -> int {
        seq_dist(self.out_next(), self.out_window_start())
    }

    /// Whether bit `i` of this endpoint's acknowledgement is set: a chunk
    /// `i + 1` after the window start is buffered.
    pub open spec fn ack_bit(&self, i: int) -> bool {
        exists|j: int|
            0 <= j < self.received().len() && seq_dist(self.received()[j].seq, self.in_window_start())
                == i + 1
    }

    /// The position that `next_send_chunk` hands out next.
    pub open spec fn next_chunk_index(&self) -> int {
        if self.cursor() < self.pending().len() {
            self.cursor() as int
        } else {
            0
        }
    }

    /// How many more chunks may be pushed.
    pub open spec fn space(&self) -> int {
        self.out_window_size() - self.in_flight()
    }

    /// Both streams have ended.
    pub open spec fn done(&self) -> bool {
        self.in_ended() && self.out_ended()
    }

    /// Whether `handle_chunk` drops `c` without a change: the stream has
    /// ended, `c` lies outside the window, or it is already buffered.
    pub open spec fn ignores_chunk(&self, c: Chunk) -> bool {
        self.in_ended() || seq_dist(c.seq, self.in_window_start()) >= self.in_window_size()
            || exists|i: int| 0 <= i < self.received().len() && self.received()[i].seq == c.seq
    }

    /// Whether `handle_ack` leaves the state as it is: the acknowledged
    /// window start lies beyond the chunks sent.
    pub open spec fn stale_ack(&self, ack_start: u32) -> bool {
        ack_start != self.out_next() && seq_dist(ack_start, self.out_window_start())
            > self.in_flight()
    }

    pub closed spec fn in_ok(&self) -> bool {
        &&& self.in_win_size >= 1
        &&& forall|i: int|
            0 <= i < self.in_received@.len() ==> seq_dist(self.in_received@[i].seq, self.in_win_start)
                < self.in_win_size
        &&& !self.in_eof ==> forall|i: int|
            0 <= i < self.in_received@.len() ==> seq_dist(self.in_received@[i].seq, self.in_win_start)
                >= 1
        &&& forall|i: int, j: int|
            0 <= i < j < self.in_received@.len() ==> self.in_received@[i].seq
                != self.in_received@[j].seq
    }

    pub closed spec fn out_ok(&self) -> bool {
        &&& seq_dist(self.out_next_seq, self.out_win_start) <= self.out_win_size
        &&& forall|i: int|
            0 <= i < self.out_pending@.len() ==> seq_dist(self.out_pending@[i].seq, self.out_win_start)
                < seq_dist(self.out_next_seq, self.out_win_start)
        &&& forall|i: int, j: int|
            0 <= i < j < self.out_pending@.len() ==> seq_dist(self.out_pending@[i].seq, self.out_win_start)
                < seq_dist(self.out_pending@[j].seq, self.out_win_start)
    }

    /// The state's invariant.
    pub closed spec fn wf(&self) -> bool {
        self.in_ok() && self.out_ok()
    }

    /// Create a state for both directions starting at `seq_start`.
    ///
    /// `in_win_size` is the peer's outgoing window size, `out_win_size` this
    /// endpoint's own.
    pub fn new(in_win_size: u16, out_win_size: u16, seq_start: u32) -> (r: WwrState)
        requires
            in_win_size >= 1,
        ensures
            r.wf(),
            r.in_window_size() == in_win_size,
            r.out_window_size() == out_win_size,
            r.in_window_start() == seq_start,
            r.out_window_start() == seq_start,
            r.out_next() == seq_start,
            r.received().len() == 0,
            r.pending().len() == 0,
            r.cursor() == 0,
            !r.in_ended(),
            !r.out_ended(),
    {
        WwrState {
            in_win_size,
            in_win_start: seq_start,
            in_received: Vec::new(),
            in_eof: false,
            out_win_size,
            out_next_seq: seq_start,
            out_win_start: seq_start,
            out_pending: Vec::new(),
            out_round_robin: 0,
            out_eof: false,
        }
    }

    /// Whether this endpoint's stream has ended.
    pub fn is_out_ended(&self) -> (r: bool)
        ensures
            r == self.out_ended(),
    {
        self.out_eof
    }

    /// This endpoint's outgoing window size.
    pub fn out_win_size(&self) -> (r: u16)
        ensures
            r == self.out_window_size(),
    {
        self.out_win_size
    }

    /// Whether both the incoming and the outgoing streams have ended.
    pub fn is_done(&self) -> (r: bool)
        ensures
            r == self.done(),
    {
        self.in_eof && self.out_eof
    }

    /// The number of chunks that `push_send_buffer` may still take.
    pub fn send_buffer_space(&self) -> (r: usize)
        requires
            self.wf(),
        ensures
            r == self.space(),
            0 <= r <= self.out_window_size(),
    {
        let used = dist(self.out_next_seq, self.out_win_start);
        (self.out_win_size as usize) - (used as usize)
    }

    /// Append a chunk of `data` to the outgoing stream.
    pub fn push_send_buffer(&mut self, data: Vec<u8>)
        requires
            old(self).wf(),
            !old(self).out_ended(),
            old(self).space() > 0,
        ensures
            final(self).wf(),
            old(self).done() ==> final(self).done(),
            final(self).pending() == old(self).pending().push(
                Chunk { seq: old(self).out_next(), data },
            ),
            final(self).out_next() == seq_add(old(self).out_next(), 1),
            final(self).in_flight() == old(self).in_flight() + 1,
            final(self).out_window_start() == old(self).out_window_start(),
            final(self).out_window_size() == old(self).out_window_size(),
            final(self).cursor() == old(self).cursor(),
            final(self).out_ended() == old(self).out_ended(),
            final(self).in_window_size() == old(self).in_window_size(),
            final(self).in_window_start() == old(self).in_window_start(),
            final(self).received() == old(self).received(),
            final(self).in_ended() == old(self).in_ended(),
    {
        let chunk = Chunk { seq: self.out_next_seq, data };
        proof {
            lemma_add_dist(self.out_win_start, seq_dist(self.out_next_seq, self.out_win_start) + 1);
            lemma_dist_add(self.out_next_seq, self.out_win_start);
        }
        self.out_next_seq = next(self.out_next_seq);
        self.out_pending.push(chunk);
    }

    /// Append the end-of-stream marker, an empty chunk, once.
    pub fn push_eof(&mut self)
        requires
            old(self).wf(),
            old(self).out_ended() || old(self).space() > 0,
        ensures
            final(self).wf(),
            old(self).done() ==> final(self).done(),
            final(self).out_ended(),
            old(self).out_ended() ==> *final(self) == *old(self),
            !old(self).out_ended() ==> final(self).pending().len() == old(self).pending().len() + 1
                && final(self).pending().drop_last() == old(self).pending()
                && final(self).pending().last().seq == old(self).out_next()
                && final(self).pending().last().data@.len() == 0
                && final(self).out_next() == seq_add(old(self).out_next(), 1)
                && final(self).in_flight() == old(self).in_flight() + 1,
            final(self).out_window_start() == old(self).out_window_start(),
            final(self).out_window_size() == old(self).out_window_size(),
            final(self).cursor() == old(self).cursor(),
            final(self).in_window_size() == old(self).in_window_size(),
            final(self).in_window_start() == old(self).in_window_start(),
            final(self).received() == old(self).received(),
            final(self).in_ended() == old(self).in_ended(),
    {
        if self.out_eof {
            return;
        }
        self.push_send_buffer(Vec::new());
        self.out_eof = true;
    }

    /// The chunk to send in the next packet, if any is pending.
    ///
    /// The pending chunks are handed out in turn, so that none of them
    /// waits forever for its retransmission.
    pub fn next_send_chunk(&mut self) -> (r: Option<Chunk>)
        requires
            old(self).wf(),
        ensures
            final(self).wf(),
            old(self).done() ==> final(self).done(),
            r.is_none() <==> old(self).pending().len() == 0,
            ({
                let k = if old(self).cursor() < old(self).pending().len() {
                    old(self).cursor() as int
                } else {
                    0
                };
                r matches Some(c) ==> c.seq == old(self).pending()[k].seq && c.data@
                    == old(self).pending()[k].data@ && final(self).cursor() == k + 1
            }),
            r.is_none() ==> final(self).cursor() == old(self).cursor(),
            final(self).pending() == old(self).pending(),
            final(self).out_next() == old(self).out_next(),
            final(self).out_window_start() == old(self).out_window_start(),
            final(self).out_window_size() == old(self).out_window_size(),
            final(self).out_ended() == old(self).out_ended(),
            final(self).in_window_size() == old(self).in_window_size(),
            final(self).in_window_start() == old(self).in_window_start(),
            final(self).received() == old(self).received(),
            final(self).in_ended() == old(self).in_ended(),
    {
        if self.out_pending.len() == 0 {
            return None;
        }
        if self.out_round_robin >= self.out_pending.len() {
            self.out_round_robin = 0;
        }
        let chunk = self.out_pending[self.out_round_robin].duplicate();
        self.out_round_robin = self.out_round_robin + 1;
        Some(chunk)
    }

    /// Whether some buffered chunk is at distance `off` from the window start.
    fn has_offset(&self, off: u32) -> (r: bool)
        ensures
            r == exists|j: int|
                0 <= j < self.in_received@.len() && seq_dist(
                    self.in_received@[j].seq,
                    self.in_win_start,
                ) == off,
    {
        let mut j: usize = 0;
        while j < self.in_received.len()
            invariant
                0 <= j <= self.in_received@.len(),
                forall|k: int|
                    0 <= k < j ==> seq_dist(self.in_received@[k].seq, self.in_win_start) != off,
            decreases self.in_received@.len() - j,
        {
            if dist(self.in_received[j].seq, self.in_win_start) == off {
                return true;
            }
            j = j + 1;
        }
        false
    }

    /// The acknowledgement to send in the next packet.
    pub fn next_send_ack(&self) -> (r: Ack)
        requires
            self.wf(),
        ensures
            r.window_start == self.in_window_start(),
            r.window_mask@.len() == self.in_window_size() - 1,
            forall|i: int| 0 <= i < r.window_mask@.len() ==> (r.window_mask@[i] <==> self.ack_bit(i)),
    {
        let n: u16 = self.in_win_size - 1;
        let mut mask: Vec<bool> = Vec::new();
        let mut i: u16 = 0;
        while i < n
            invariant
                n == self.in_win_size - 1,
                0 <= i <= n,
                mask@.len() == i,
                forall|k: int|
                    0 <= k < i ==> (mask@[k] <==> exists|j: int|
                        0 <= j < self.in_received@.len() && seq_dist(
                            self.in_received@[j].seq,
                            self.in_win_start,
                        ) == k + 1),
            decreases n - i,
        {
            let bit = self.has_offset((i as u32) + 1);
            mask.push(bit);
            i = i + 1;
        }
        proof {
            assert(self.received() == self.in_received@);
            assert(self.in_window_start() == self.in_win_start);
        }
        Ack { window_start: self.in_win_start, window_mask: mask }
    }

    /// Apply an acknowledgement from the peer.
    ///
    /// An acknowledgement of the next number drops every pending chunk.
    /// One whose window start lies beyond the chunks sent is stale and
    /// ignored. Any other moves the window start to its own and drops the
    /// chunks it acknowledges.
    pub fn handle_ack(&mut self, ack: &Ack)
        requires
            old(self).wf(),
        ensures
            final(self).wf(),
            old(self).done() ==> final(self).done(),
            ack.window_start == old(self).out_next() ==> final(self).pending().len() == 0
                && final(self).out_window_start() == old(self).out_next(),
            old(self).stale_ack(ack.window_start) ==> *final(self) == *old(self),
            !old(self).stale_ack(ack.window_start) ==> final(self).out_window_start()
                == ack.window_start,
            ack.window_start != old(self).out_next() && !old(self).stale_ack(ack.window_start)
                ==> (forall|c: Chunk|
                final(self).pending().contains(c) <==> old(self).pending().contains(c) && !acked(
                    old(self).out_window_start(),
                    ack.window_start,
                    ack.window_mask@,
                    c.seq,
                )),
            ack.window_start != old(self).out_next() && !old(self).stale_ack(ack.window_start)
                ==> final(self).pending() == unacked(
                old(self).pending(),
                old(self).out_window_start(),
                ack.window_start,
                ack.window_mask@,
            ) && final(self).cursor() == old(self).cursor() - acked_count(
                old(self).pending().take(
                    if old(self).cursor() < old(self).pending().len() {
                        old(self).cursor() as int
                    } else {
                        old(self).pending().len() as int
                    },
                ),
                old(self).out_window_start(),
                ack.window_start,
                ack.window_mask@,
            ),
            ack.window_start == old(self).out_next() ==> final(self).cursor() == 0,
            final(self).out_next() == old(self).out_next(),
            final(self).out_window_size() == old(self).out_window_size(),
            final(self).out_ended() == old(self).out_ended(),
            final(self).in_window_size() == old(self).in_window_size(),
            final(self).in_window_start() == old(self).in_window_start(),
            final(self).received() == old(self).received(),
            final(self).in_ended() == old(self).in_ended(),
    {
        if ack.window_start == self.out_next_seq {
            self.out_pending.clear();
            self.out_win_start = self.out_next_seq;
            self.out_round_robin = 0;
            return;
        }
        let start = self.out_win_start;
        let ack_start = ack.window_start;
        let residual = dist(ack_start, start);
        if residual > dist(self.out_next_seq, start) {
            return;
        }
        let ghost old_pending = self.out_pending@;
        let ghost flight = seq_dist(self.out_next_seq, start);
        let cursor = self.out_round_robin;
        let mut rest: Vec<Chunk> = Vec::new();
        std::mem::swap(&mut rest, &mut self.out_pending);
        let mut kept: Vec<Chunk> = Vec::new();
        let mut rr = cursor;
        let total = rest.len();
        let mut i: usize = 0;
        proof {
            assert(old_pending.take(0) =~= Seq::<Chunk>::empty());
        }
        while rest.len() > 0
            invariant
                self.out_next_seq == old(self).out_next_seq,
                self.out_win_start == start,
                start == old(self).out_win_start,
                flight == seq_dist(self.out_next_seq, start),
                flight <= self.out_win_size,
                residual == seq_dist(ack_start, start),
                residual <= flight,
                old_pending == old(self).out_pending@,
                i + rest@.len() == old_pending.len(),
                total == old_pending.len(),
                rest@ == old_pending.subrange(i as int, old_pending.len() as int),
                rr <= cursor,
                cursor - rr <= i,
                kept@.len() <= i,
                kept@ == unacked(old_pending.take(i as int), start, ack_start, ack.window_mask@),
                rr == cursor - acked_count(
                    old_pending.take(if i < cursor { i as int } else { cursor as int }),
                    start,
                    ack_start,
                    ack.window_mask@,
                ),
                forall|k: int|
                    0 <= k < old_pending.len() ==> seq_dist(old_pending[k].seq, start) < flight,
                forall|a: int, b: int|
                    0 <= a < b < old_pending.len() ==> seq_dist(old_pending[a].seq, start)
                        < seq_dist(old_pending[b].seq, start),
                forall|k: int|
                    0 <= k < kept@.len() ==> residual <= seq_dist(kept@[k].seq, start)
                        && seq_dist(kept@[k].seq, start) < flight,
                forall|a: int, b: int|
                    0 <= a < b < kept@.len() ==> seq_dist(kept@[a].seq, start) < seq_dist(
                        kept@[b].seq,
                        start,
                    ),
                forall|a: int, b: int|
                    0 <= a < kept@.len() && i <= b < old_pending.len() ==> seq_dist(
                        kept@[a].seq,
                        start,
                    ) < seq_dist(old_pending[b].seq, start),
                forall|c: Chunk|
                    kept@.contains(c) <==> (exists|k: int|
                        0 <= k < i && old_pending[k] == c && !acked(
                            start,
                            ack_start,
                            ack.window_mask@,
                            c.seq,
                        )),
            decreases rest@.len(),
        {
            let c = rest.remove(0);
            proof {
                assert(c == old_pending[i as int]);
            }
            let d = dist(c.seq, start);
            let mut is_acked = d < residual;
            if !is_acked {
                let o = dist(c.seq, ack_start);
                if o >= 1 && ((o - 1) as usize) < ack.window_mask.len() {
                    is_acked = ack.window_mask[(o - 1) as usize];
                }
            }
            assert(is_acked == acked(start, ack_start, ack.window_mask@, c.seq));
            proof {
                let t = old_pending.take(i + 1);
                assert(t.drop_last() =~= old_pending.take(i as int));
                assert(t.last() == c);
                if i < cursor {
                    assert(old_pending.take(if i + 1 < cursor { i + 1 } else { cursor as int }) =~= t);
                } else {
                    assert(old_pending.take(if i + 1 < cursor { i + 1 } else { cursor as int })
                        =~= old_pending.take(cursor as int));
                }
            }
            if is_acked {
                if i < cursor {
                    rr = rr - 1;
                }
            } else {
                let ghost pre = kept@;
                kept.push(c);
                proof {
                    assert(kept@ == pre.push(c));
                    assert forall|x: Chunk|
                        kept@.contains(x) <==> (exists|k: int|
                            0 <= k < i + 1 && old_pending[k] == x && !acked(
                                start,
                                ack_start,
                                ack.window_mask@,
                                x.seq,
                            )) by {
                        if kept@.contains(x) {
                            let m = choose|m: int| 0 <= m < kept@.len() && kept@[m] == x;
                            if m < pre.len() {
                                assert(pre[m] == x);
                                assert(pre.contains(x));
                            } else {
                                assert(old_pending[i as int] == x);
                            }
                        }
                        if exists|k: int|
                            0 <= k < i + 1 && old_pending[k] == x && !acked(
                                start,
                                ack_start,
                                ack.window_mask@,
                                x.seq,
                            ) {
                            let k = choose|k: int|
                                0 <= k < i + 1 && old_pending[k] == x && !acked(
                                    start,
                                    ack_start,
                                    ack.window_mask@,
                                    x.seq,
                                );
                            if k < i {
                                assert(pre.contains(x));
                                let m = choose|m: int| 0 <= m < pre.len() && pre[m] == x;
                                assert(kept@[m] == x);
                            } else {
                                assert(kept@[kept@.len() - 1] == x);
                            }
                        }
                    }
                }
            }
            i = i + 1;
        }
        proof {
            assert forall|k: int| 0 <= k < kept@.len() implies seq_dist(kept@[k].seq, ack_start)
                < seq_dist(self.out_next_seq, ack_start) by {
                lemma_dist_shift(kept@[k].seq, start, ack_start);
                lemma_dist_shift(self.out_next_seq, start, ack_start);
            }
            assert forall|a: int, b: int| 0 <= a < b < kept@.len() implies seq_dist(
                kept@[a].seq,
                ack_start,
            ) < seq_dist(kept@[b].seq, ack_start) by {
                lemma_dist_shift(kept@[a].seq, start, ack_start);
                lemma_dist_shift(kept@[b].seq, start, ack_start);
            }
            lemma_dist_shift(self.out_next_seq, start, ack_start);
            assert forall|c: Chunk| old_pending.contains(c) && !acked(
                start,
                ack_start,
                ack.window_mask@,
                c.seq,
            ) implies kept@.contains(c) by {
                let k = choose|k: int| 0 <= k < old_pending.len() && old_pending[k] == c;
            }
        }
        proof {
            assert(old_pending.take(i as int) =~= old_pending);
            if cursor < old_pending.len() {
                assert(i >= cursor);
            } else {
                assert(old_pending.take(if i < cursor { i as int } else { cursor as int })
                    =~= old_pending.take(old_pending.len() as int));
            }
        }
        self.out_pending = kept;
        self.out_win_start = ack_start;
        self.out_round_robin = rr;
    }

    /// The position of the buffered chunk numbered `seq`, if there is one.
    fn find_received(&self, seq: u32) -> (r: Option<usize>)
        ensures
            r matches Some(k) ==> k < self.in_received@.len() && self.in_received@[k as int].seq
                == seq,
            r is None ==> forall|k: int|
                0 <= k < self.in_received@.len() ==> self.in_received@[k].seq != seq,
    {
        let mut j: usize = 0;
        while j < self.in_received.len()
            invariant
                0 <= j <= self.in_received@.len(),
                forall|k: int| 0 <= k < j ==> self.in_received@[k].seq != seq,
            decreases self.in_received@.len() - j,
        {
            if self.in_received[j].seq == seq {
                return Some(j);
            }
            j = j + 1;
        }
        None
    }

    /// Take in a chunk from the peer.
    ///
    /// Returns the chunks that can now be delivered, in order, starting at
    /// the former window start. An empty chunk among them ends the stream
    /// and is the last one.
    pub fn handle_chunk(&mut self, chunk: Chunk) -> (r: Vec<Chunk>)
        requires
            old(self).wf(),
        ensures
            final(self).wf(),
            old(self).done() ==> final(self).done(),
            old(self).ignores_chunk(chunk) ==> *final(self) == *old(self) && r@.len() == 0,
            final(self).ignores_chunk(chunk),
            !final(self).in_ended() ==> forall|i: int|
                0 <= i < final(self).received().len() ==> #[trigger] final(self).received()[i].seq
                    != final(self).in_window_start(),
            r@.len() <= old(self).in_window_size(),
            forall|k: int|
                0 <= k < r@.len() ==> r@[k].seq == seq_add(old(self).in_window_start(), k),
            forall|k: int|
                0 <= k < r@.len() ==> r@[k] == chunk || old(self).received().contains(r@[k]),
            !old(self).ignores_chunk(chunk) ==> forall|x: Chunk|
                #[trigger] final(self).received().contains(x) <==> ((old(self).received().contains(x)
                    || x == chunk) && !r@.contains(x)),
            forall|k: int| 0 <= k < r@.len() - 1 ==> r@[k].data@.len() > 0,
            final(self).in_window_start() == seq_add(old(self).in_window_start(), r@.len() as int),
            final(self).in_ended() == (old(self).in_ended() || (r@.len() > 0
                && r@.last().data@.len() == 0)),
            final(self).in_window_size() == old(self).in_window_size(),
            final(self).pending() == old(self).pending(),
            final(self).cursor() == old(self).cursor(),
            final(self).out_next() == old(self).out_next(),
            final(self).out_window_start() == old(self).out_window_start(),
            final(self).out_window_size() == old(self).out_window_size(),
            final(self).out_ended() == old(self).out_ended(),
    {
        if self.in_eof {
            return Vec::new();
        }
        if dist(chunk.seq, self.in_win_start) >= self.in_win_size as u32 {
            return Vec::new();
        }
        if let Some(k) = self.find_received(chunk.seq) {
            proof {
                assert(self.received()[k as int].seq == chunk.seq);
            }
            return Vec::new();
        }
        let ghost start0 = self.in_win_start;
        let ghost rcv0 = self.in_received@;
        let ghost w = self.in_win_size as int;
        let ghost cseq = chunk.seq;
        self.in_received.push(chunk);
        proof {
            assert(self.in_received@[self.in_received@.len() - 1].seq == cseq);
            assert(self.in_received@ == rcv0.push(chunk));
            assert forall|x: Chunk| #[trigger] self.in_received@.contains(x) <==> (rcv0.contains(x)
                || x == chunk) by {
                if self.in_received@.contains(x) {
                    let j = choose|j: int| 0 <= j < self.in_received@.len() && self.in_received@[j] == x;
                    if j < rcv0.len() {
                        assert(rcv0[j] == x);
                    }
                }
                if rcv0.contains(x) {
                    let j = choose|j: int| 0 <= j < rcv0.len() && rcv0[j] == x;
                    assert(self.in_received@[j] == x);
                }
                if x == chunk {
                    assert(self.in_received@[rcv0.len() as int] == x);
                }
            }
        }
        let mut result: Vec<Chunk> = Vec::new();
        loop
            invariant_except_break
                !self.in_eof,
                (exists|i: int| 0 <= i < self.in_received@.len() && self.in_received@[i].seq == cseq)
                    || seq_dist(cseq, self.in_win_start) >= 0x1_0000_0000 - result@.len(),
            invariant
                self.in_win_size == old(self).in_win_size,
                w == self.in_win_size,
                w >= 1,
                self.out_pending == old(self).out_pending,
                self.out_round_robin == old(self).out_round_robin,
                self.out_next_seq == old(self).out_next_seq,
                self.out_win_start == old(self).out_win_start,
                self.out_win_size == old(self).out_win_size,
                self.out_eof == old(self).out_eof,
                !old(self).in_eof,
                start0 == old(self).in_win_start,
                rcv0 == old(self).in_received@,
                self.in_win_start == seq_add(start0, result@.len() as int),
                result@.len() <= w,
                forall|i: int|
                    0 <= i < self.in_received@.len() ==> seq_dist(self.in_received@[i].seq, self.in_win_start)
                        + result@.len() < w,
                forall|i: int, j: int|
                    0 <= i < j < self.in_received@.len() ==> self.in_received@[i].seq
                        != self.in_received@[j].seq,
                forall|i: int|
                    0 <= i < self.in_received@.len() ==> self.in_received@[i] == chunk
                        || rcv0.contains(self.in_received@[i]),
                forall|k: int|
                    0 <= k < result@.len() ==> result@[k].seq == seq_add(start0, k),
                forall|k: int|
                    0 <= k < result@.len() ==> result@[k] == chunk || rcv0.contains(result@[k]),
                forall|x: Chunk|
                    #[trigger] self.in_received@.contains(x) <==> ((rcv0.contains(x) || x == chunk)
                        && !result@.contains(x)),
                forall|k: int| 0 <= k < result@.len() - 1 ==> result@[k].data@.len() > 0,
                self.in_eof == (result@.len() > 0 && result@.last().data@.len() == 0),
            ensures
                self.in_eof || (exists|i: int|
                    0 <= i < self.in_received@.len() && self.in_received@[i].seq == cseq)
                    || seq_dist(cseq, self.in_win_start) >= 0x1_0000_0000 - result@.len(),
                self.in_eof || forall|i: int|
                    0 <= i < self.in_received@.len() ==> seq_dist(self.in_received@[i].seq, self.in_win_start)
                        >= 1,
            decreases self.in_received@.len(),
        {
            let found = self.find_received(self.in_win_start);
            match found {
                None => {
                    proof {
                        assert forall|i: int| 0 <= i < self.in_received@.len() implies seq_dist(
                            self.in_received@[i].seq,
                            self.in_win_start,
                        ) >= 1 by {
                            lemma_dist_bounds(self.in_received@[i].seq, self.in_win_start);
                        }
                    }
                    break;
                },
                Some(k) => {
                    let ghost pre = self.in_received@;
                    let ghost cur = self.in_win_start;
                    let ghost had_c = exists|i: int| 0 <= i < pre.len() && pre[i].seq == cseq;
                    let c = self.in_received.remove(k);
                    let is_eof = c.data.len() == 0;
                    let ghost pre_res = result@;
                    result.push(c);
                    self.in_win_start = next(self.in_win_start);
                    proof {
                        lemma_dist_bounds(c.seq, cur);
                        assert(pre[k as int] == c);
                        assert(pre.contains(c));
                        assert forall|i: int| 0 <= i < self.in_received@.len() implies seq_dist(
                            self.in_received@[i].seq,
                            self.in_win_start,
                        ) + result@.len() < w by {
                            let o = if i < k { i } else { i + 1 };
                            assert(self.in_received@[i] == pre[o]);
                            assert(pre[o].seq != cur);
                            lemma_dist_bounds(pre[o].seq, cur);
                            lemma_add_dist(cur, 1);
                            lemma_dist_shift(pre[o].seq, cur, self.in_win_start);
                        }
                        assert forall|i: int|
                            0 <= i < self.in_received@.len() implies self.in_received@[i] == chunk
                            || rcv0.contains(self.in_received@[i]) by {
                            let o = if i < k { i } else { i + 1 };
                            assert(self.in_received@[i] == pre[o]);
                        }
                        assert forall|a: int, b: int|
                            0 <= a < b < self.in_received@.len() implies self.in_received@[a].seq
                            != self.in_received@[b].seq by {
                            let oa = if a < k { a } else { a + 1 };
                            let ob = if b < k { b } else { b + 1 };
                            assert(self.in_received@[a] == pre[oa]);
                            assert(self.in_received@[b] == pre[ob]);
                        }
                        assert(result@ == pre_res.push(c));
                        assert forall|x: Chunk| #[trigger] self.in_received@.contains(x) <==> ((
                            rcv0.contains(x) || x == chunk) && !result@.contains(x)) by {
                            let post = self.in_received@;
                            if post.contains(x) {
                                let j = choose|j: int| 0 <= j < post.len() && post[j] == x;
                                let o = if j < k { j } else { j + 1 };
                                assert(post[j] == pre[o]);
                                assert(pre.contains(x));
                                assert(o != k);
                                assert(pre[o].seq != pre[k as int].seq);
                                assert(x != c);
                                if result@.contains(x) {
                                    let q = choose|q: int| 0 <= q < result@.len() && result@[q] == x;
                                    if q < pre_res.len() {
                                        assert(pre_res[q] == x);
                                        assert(pre_res.contains(x));
                                    }
                                }
                            }
                            if (rcv0.contains(x) || x == chunk) && !result@.contains(x) {
                                assert(!pre_res.contains(x)) by {
                                    if pre_res.contains(x) {
                                        let q = choose|q: int| 0 <= q < pre_res.len() && pre_res[q] == x;
                                        assert(result@[q] == x);
                                    }
                                }
                                assert(pre.contains(x));
                                let j = choose|j: int| 0 <= j < pre.len() && pre[j] == x;
                                assert(x != c) by {
                                    assert(result@[result@.len() - 1] == c);
                                }
                                assert(j != k);
                                let o = if j < k { j } else { j - 1 };
                                assert(post[o] == pre[j]);
                            }
                        }
                        assert forall|q: int| 0 <= q < result@.len() implies result@[q] == chunk
                            || rcv0.contains(result@[q]) by {
                            if q < pre_res.len() {
                                assert(result@[q] == pre_res[q]);
                            }
                        }
                        lemma_add_dist(cur, 1);
                        if had_c {
                            let i0 = choose|i: int| 0 <= i < pre.len() && pre[i].seq == cseq;
                            if i0 == k {
                                lemma_dist_shift_past(cseq, cur, self.in_win_start);
                            } else {
                                let o = if i0 < k { i0 } else { i0 - 1 };
                                assert(self.in_received@[o] == pre[i0]);
                            }
                        } else {
                            lemma_dist_shift(cseq, cur, self.in_win_start);
                        }
                        assert(seq_add(start0, result@.len() as int) == seq_add(cur, 1));
                    }
                    if is_eof {
                        self.in_eof = true;
                        break;
                    }
                },
            }
        }
        proof {
            assert(self.received() == self.in_received@);
            if !self.in_eof && !(exists|i: int| 0 <= i < self.in_received@.len() && self.in_received@[i].seq == cseq) {
                assert(self.in_win_size <= 0xffff);
                assert(seq_dist(cseq, self.in_win_start) >= self.in_win_size);
            }
        }
        result
    }
}

/// A strictly increasing sequence of numbers below `f` has at most `f` items.
proof fn lemma_increasing_below(xs: Seq<int>, f: int)
    requires
        f >= 0,
        forall|i: int| 0 <= i < xs.len() ==> 0 <= #[trigger] xs[i] < f,
        forall|i: int, j: int| 0 <= i < j < xs.len() ==> xs[i] < xs[j],
    ensures
        xs.len() <= f,
    decreases xs.len(),
{
    if xs.len() > 0 {
        let last = xs.last();
        let front = xs.drop_last();
        assert forall|i: int| 0 <= i < front.len() implies 0 <= #[trigger] front[i] < last by {
            assert(front[i] == xs[i]);
        }
        lemma_increasing_below(front, last);
        assert(xs[xs.len() - 1] < f);
    }
}

/// The pending chunks never outnumber the chunks in flight: those numbered
/// from the window start up to the next number. They are as many exactly
/// until an acknowledgement drops a chunk from the middle of the window.
pub proof fn lemma_pending_within_flight(s: WwrState)
    requires
        s.wf(),
    ensures
        s.pending().len() <= s.in_flight(),
{
    let xs = s.out_pending@.map_values(|c: Chunk| seq_dist(c.seq, s.out_win_start));
    lemma_dist_bounds(s.out_next_seq, s.out_win_start);
    assert forall|i: int| 0 <= i < xs.len() implies 0 <= #[trigger] xs[i] < s.in_flight() by {
        lemma_dist_bounds(s.out_pending@[i].seq, s.out_win_start);
    }
    lemma_increasing_below(xs, s.in_flight());
}

/// An acknowledgement whose window start lies beyond the window, more than
/// the window size after its start, leaves the outgoing side as it is.
pub proof fn lemma_ack_outside_window_is_stale(s: WwrState, ack_start: u32)
    requires
        s.wf(),
        seq_dist(ack_start, s.out_window_start()) > s.out_window_size(),
    ensures
        s.stale_ack(ack_start),
{
}

} // verus!
