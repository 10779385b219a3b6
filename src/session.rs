//! The per-packet steps of a transfer session, between the WWR state and
//! the TCP stream that the caller drives.

use vstd::prelude::*;
use crate::message::Message;
use crate::seqnum::{seq_add, lemma_seq_add_step, lemma_seq_add_zero};
use crate::text::{chars_of, parse_decimal, parse_u64};
use crate::util::{is_api_query, api_query_spec};
use crate::wwr::WwrState;
use crate::xfer::{Chunk, Packet};

verus! {

/// The bytes of `chunks` up to the first empty one, which ends the stream.
pub open spec fn stream_data(chunks: Seq<Chunk>) -> Seq<u8>
    decreases chunks.len(),
{
    if chunks.len() == 0 || chunks[0].data@.len() == 0 {
        Seq::empty()
    } else {
        chunks[0].data@ + stream_data(chunks.skip(1))
    }
}

/// `data` and `end` are what a run of chunks numbered from `old_start` on
/// delivers, the window having moved from `old_start` to `new_start`.
pub open spec fn delivered(old_start: u32, new_start: u32, data: Seq<u8>, end: bool) -> bool {
    exists|drained: Seq<Chunk>|
        {
            &&& forall|k: int|
                0 <= k < drained.len() ==> #[trigger] drained[k].seq == seq_add(old_start, k)
            &&& new_start == seq_add(old_start, drained.len() as int)
            &&& data == stream_data(drained)
            &&& end == has_end(drained)
        }
}

/// Whether one of `chunks` is empty, ending the stream.
pub open spec fn has_end(chunks: Seq<Chunk>) -> bool {
    exists|k: int| 0 <= k < chunks.len() && chunks[k].data@.len() == 0
}

/// The session that a transfer query names, if it is one: the number after
/// `t` or `p` in its first label.
pub fn xfer_query_session_id(query: &Message) -> (r: Option<u16>)
    ensures
        r is Some ==> (api_query_spec(*query, 't') || api_query_spec(*query, 'p')),
        r matches Some(id) ==> parse_decimal(query.questions@[0].domain@[0].skip(1), 0xffff)
            == Some(id as nat),
        (api_query_spec(*query, 't') || api_query_spec(*query, 'p')) && parse_decimal(
            query.questions@[0].domain@[0].skip(1),
            0xffff,
        ) is Some ==> r is Some,
{
    if !is_api_query(query, 't') && !is_api_query(query, 'p') {
        return None;
    }
    let parts = query.questions[0].domain.parts();
    proof {
        assert(query.questions@[0].domain@[0] == parts@[0]@);
    }
    let first = chars_of(parts[0].as_str());
    let mut tail = String::new();
    let mut i: usize = 1;
    while i < first.len()
        invariant
            first@.len() > 0,
            1 <= i <= first@.len(),
            tail@ == first@.subrange(1, i as int),
        decreases first@.len() - i,
    {
        crate::text::push_char(&mut tail, first[i]);
        i = i + 1;
        proof {
            assert(tail@ =~= first@.subrange(1, i as int));
        }
    }
    proof {
        assert(first@.subrange(1, first@.len() as int) =~= first@.skip(1));
    }
    match parse_u64(tail.as_str(), 0xffff) {
        Some(v) => Some(v as u16),
        None => None,
    }
}

/// The data of the chunks, up to an empty one, and whether there was one.
fn collect_data(chunks: &Vec<Chunk>) -> (r: (Vec<u8>, bool))
    ensures
        r.0@ == stream_data(chunks@),
        r.1 == has_end(chunks@),
{
    let mut data: Vec<u8> = Vec::new();
    let mut i: usize = 0;
    proof {
        assert(chunks@.skip(0) =~= chunks@);
        assert(data@ + stream_data(chunks@) =~= stream_data(chunks@));
    }
    while i < chunks.len()
        invariant
            0 <= i <= chunks@.len(),
            data@ + stream_data(chunks@.skip(i as int)) == stream_data(chunks@),
            forall|k: int| 0 <= k < i ==> chunks@[k].data@.len() > 0,
        decreases chunks@.len() - i,
    {
        if chunks[i].data.len() == 0 {
            proof {
                assert(stream_data(chunks@.skip(i as int)) == Seq::<u8>::empty());
                assert(data@ + Seq::<u8>::empty() =~= data@);
            }
            return (data, true);
        }
        let ghost pre = data@;
        let mut more = crate::codec::copy_bytes(&chunks[i].data);
        data.append(&mut more);
        proof {
            let rest = chunks@.skip(i as int);
            assert(rest[0] == chunks@[i as int]);
            assert(rest.skip(1) =~= chunks@.skip(i + 1));
            assert(pre + (chunks@[i as int].data@ + stream_data(chunks@.skip(i + 1))) =~= data@
                + stream_data(chunks@.skip(i + 1)));
        }
        i = i + 1;
    }
    proof {
        assert(chunks@.skip(i as int) =~= Seq::<Chunk>::empty());
        assert(data@ + Seq::<u8>::empty() =~= data@);
    }
    (data, false)
}

/// Take in a packet from the peer: apply its acknowledgement and, where the
/// TCP stream has room, its chunk. Returns the bytes now due to the stream
/// and whether the stream has ended with them.
pub fn handle_packet_in(packet: Packet, state: &mut WwrState, can_send: bool) -> (r: (Vec<u8>, bool))
    requires
        old(state).wf(),
    ensures
        final(state).wf(),
        final(state).out_next() == old(state).out_next(),
        final(state).out_ended() == old(state).out_ended(),
        !old(state).stale_ack(packet.ack.window_start) ==> final(state).out_window_start()
            == packet.ack.window_start,
        (!can_send || packet.chunk is None) ==> r.0@.len() == 0 && !r.1 && final(state).received()
            == old(state).received() && final(state).in_window_start() == old(state).in_window_start()
            && final(state).in_ended() == old(state).in_ended(),
        (can_send && packet.chunk is Some) ==> delivered(
            old(state).in_window_start(),
            final(state).in_window_start(),
            r.0@,
            r.1,
        ),
        (can_send && packet.chunk is Some) ==> {
            let c = packet.chunk->Some_0;
            &&& old(state).ignores_chunk(c) ==> r.0@.len() == 0 && !r.1 && final(state).received()
                == old(state).received() && final(state).in_window_start() == old(
                state,
            ).in_window_start()
            &&& !old(state).ignores_chunk(c) ==> exists|drained: Seq<Chunk>|
                #[trigger] stream_data(drained) == r.0@ && forall|x: Chunk|
                    #[trigger] final(state).received().contains(x) <==> ((old(
                        state,
                    ).received().contains(x) || x == c) && !drained.contains(x))
            &&& !final(state).in_ended() ==> forall|i: int|
                0 <= i < final(state).received().len() ==> #[trigger] final(state).received()[i].seq
                    != final(state).in_window_start()
        },
{
    state.handle_ack(&packet.ack);
    let ghost mid_start = state.in_window_start();
    if can_send {
        match packet.chunk {
            Some(chunk) => {
                let chunks = state.handle_chunk(chunk);
                let r = collect_data(&chunks);
                proof {
                    let d = chunks@;
                    assert(stream_data(d) == r.0@);
                    assert(forall|k: int| 0 <= k < d.len() ==> #[trigger] d[k].seq == seq_add(mid_start, k));
                    assert(delivered(mid_start, state.in_window_start(), r.0@, r.1));
                }
                r
            },
            None => (Vec::new(), false),
        }
    } else {
        (Vec::new(), false)
    }
}

/// Move data waiting in `source` into the outgoing stream, as far as the
/// window allows, an empty entry ending it; then give the packet to send
/// next. Returns the packet and the number of entries taken from `source`.
pub fn next_packet_out(state: &mut WwrState, source: &mut Vec<Vec<u8>>) -> (r: (Packet, usize))
    requires
        old(state).wf(),
    ensures
        final(state).wf(),
        r.1 <= old(source)@.len(),
        final(source)@ == old(source)@.skip(r.1 as int),
        old(state).out_ended() ==> r.1 == 0,
        !old(state).out_ended() ==> r.1 <= old(state).space(),
        !old(state).out_ended() ==> (r.1 == old(source)@.len() || r.1 == old(state).space() || (r.1
            > 0 && old(source)@[r.1 - 1]@.len() == 0)),
        forall|j: int| 0 <= j < r.1 - 1 ==> old(source)@[j]@.len() > 0,
        final(state).out_ended() == (old(state).out_ended() || (r.1 > 0 && old(source)@[r.1
            - 1]@.len() == 0)),
        final(state).pending().len() == old(state).pending().len() + r.1,
        forall|j: int|
            0 <= j < old(state).pending().len() ==> final(state).pending()[j] == old(
                state,
            ).pending()[j],
        forall|j: int|
            0 <= j < r.1 ==> #[trigger] final(state).pending()[old(state).pending().len() + j].seq
                == seq_add(old(state).out_next(), j),
        forall|j: int|
            0 <= j < r.1 ==> #[trigger] final(state).pending()[old(state).pending().len() + j].data@
                == old(source)@[j]@,
        r.0.ack.window_start == final(state).in_window_start(),
        r.0.ack.window_mask@.len() == final(state).in_window_size() - 1,
        r.0.chunk is None <==> final(state).pending().len() == 0,
        forall|i: int|
            0 <= i < r.0.ack.window_mask@.len() ==> (r.0.ack.window_mask@[i] <==> final(state).ack_bit(i)),
        r.0.chunk matches Some(c) ==> {
            let k = if old(state).cursor() < final(state).pending().len() {
                old(state).cursor() as int
            } else {
                0
            };
            &&& c.seq == final(state).pending()[k].seq
            &&& c.data@ == final(state).pending()[k].data@
            &&& final(state).cursor() == k + 1
        },
        final(state).in_window_start() == old(state).in_window_start(),
        final(state).received() == old(state).received(),
        final(state).out_window_start() == old(state).out_window_start(),
        final(state).in_window_size() == old(state).in_window_size(),
{
    let ghost src0 = source@;
    let n0 = source.len();
    let mut taken: usize = 0;
    proof {
        assert(src0.skip(0) =~= src0);
        lemma_seq_add_zero(old(state).out_next());
    }
    while state.send_buffer_space() > 0 && !state.is_out_ended() && source.len() > 0
        invariant
            state.wf(),
            n0 == src0.len(),
            taken <= src0.len(),
            source@ == src0.skip(taken as int),
            old(state).out_ended() ==> taken == 0,
            state.in_window_start() == old(state).in_window_start(),
            state.received() == old(state).received(),
            state.in_window_size() == old(state).in_window_size(),
            state.cursor() == old(state).cursor(),
            old(state).out_ended() ==> state.out_ended(),
            src0 == old(source)@,
            !old(state).out_ended() ==> state.space() == old(state).space() - taken,
            forall|j: int| 0 <= j < taken - 1 ==> src0[j]@.len() > 0,
            state.out_ended() == (old(state).out_ended() || (taken > 0 && src0[taken - 1]@.len()
                == 0)),
            state.out_next() == seq_add(old(state).out_next(), taken as int),
            state.out_window_start() == old(state).out_window_start(),
            state.out_window_size() == old(state).out_window_size(),
            state.pending().len() == old(state).pending().len() + taken,
            forall|j: int|
                0 <= j < old(state).pending().len() ==> state.pending()[j] == old(state).pending()[j],
            forall|j: int|
                0 <= j < taken ==> state.pending()[old(state).pending().len() + j].seq == seq_add(
                    old(state).out_next(),
                    j,
                ) && state.pending()[old(state).pending().len() + j].data@ == src0[j]@,
        decreases src0.len() - taken,
    {
        let ghost before = state.pending();
        let ghost next0 = state.out_next();
        let data = source.remove(0);
        proof {
            assert(data == src0[taken as int]);
            lemma_seq_add_step(old(state).out_next(), taken as int);
        }
        if data.len() == 0 {
            state.push_eof();
            proof {
                assert(state.pending().drop_last() == before);
                assert forall|j: int| 0 <= j < before.len() implies state.pending()[j] == before[j] by {
                    assert(state.pending().drop_last()[j] == state.pending()[j]);
                }
            }
        } else {
            state.push_send_buffer(data);
        }
        taken = taken + 1;
        proof {
            assert(source@ =~= src0.skip(taken as int));
        }
    }
    let ack = state.next_send_ack();
    let ghost mid = state.pending();
    let ghost mid_rcv = state.received();
    let ghost mid_start = state.in_window_start();
    proof {
        assert forall|i: int| 0 <= i < ack.window_mask@.len() implies (ack.window_mask@[i] <==> exists|j: int|
            0 <= j < mid_rcv.len() && crate::seqnum::seq_dist(mid_rcv[j].seq, mid_start) == i + 1) by {
            assert(ack.window_mask@[i] <==> state.ack_bit(i));
        }
    }
    let chunk = state.next_send_chunk();
    proof {
        assert(state.received() == mid_rcv);
        assert(state.in_window_start() == mid_start);
        assert forall|i: int| 0 <= i < ack.window_mask@.len() implies (ack.window_mask@[i]
            <==> state.ack_bit(i)) by {}
        assert(state.pending() == mid);
        assert forall|j: int| 0 <= j < taken implies #[trigger] state.pending()[old(state).pending().len()
            + j].data@ == old(source)@[j]@ && state.pending()[old(state).pending().len()
            + j].seq == seq_add(old(state).out_next(), j) by {
            assert(mid[old(state).pending().len() + j].seq == seq_add(old(state).out_next(), j));
            assert(mid[old(state).pending().len() + j].data@ == src0[j]@);
            assert(src0 == old(source)@);
        }
    }
    (Packet { ack, chunk }, taken)
}

} // verus!
