//! The client's decisions: the query each lane sends next, what a response
//! means for the session, and the request numbers that lanes stamp.

use vstd::prelude::*;
use crate::domain::Domain;
use crate::message::{Message, Question};
use crate::name_code::HexNameCode;
use crate::record::{RecordClass, RecordType};
use crate::record_code::RawTxtCode;
use crate::session::{handle_packet_in, next_packet_out, delivered};
use crate::name_code::query_labels;
use crate::domain::valid_domain;
use crate::record::RecordBody;
use crate::record_code::txt_decode;
use crate::xfer::{response_packet_ok, ack_bytes, chunk_bytes, byte_count};
use crate::record::u32_at;
use crate::wwr::WwrState;
use crate::xfer::Packet;

verus! {

/// The first request number of lane `lane`: ten times its index, modulo 2^16.
pub fn lane_first_id(lane: u16) -> (r: u16)
    ensures
        r == (lane as nat * 10) % 0x10000,
{
    ((lane as u32 * 10) % 0x10000) as u16
}

/// The request number after `id`, modulo 2^16.
pub fn next_request_id(id: u16) -> (r: u16)
    ensures
        r == (id as nat + 1) % 0x10000,
{
    id.wrapping_add(1)
}

/// Whether `bytes`, sent with API character `api`, is the packet that
/// state `s` sends: its acknowledgement, then the pending chunk at `k`, or
/// eight bytes of nonce when nothing is pending.
pub open spec fn query_bytes_of(api: char, bytes: Seq<u8>, s: WwrState, k: int) -> bool {
    exists|mask: Seq<bool>, tail: Seq<u8>|
        {
            &&& mask.len() == s.in_window_size() - 1
            &&& forall|i: int| 0 <= i < mask.len() ==> (mask[i] <==> s.ack_bit(i))
            &&& bytes == ack_bytes(s.in_window_start(), mask) + tail
            &&& (api == 't' <==> s.pending().len() > 0)
            &&& api == 't' ==> tail == chunk_bytes(s.pending()[k].seq, s.pending()[k].data@)
            &&& api == 'p' ==> tail.len() == 8
        }
}

/// The query a lane sends next: the state's next packet, after data waiting
/// in `source` has been moved in, encoded into a name under `host`. Returns
/// the query and the number of entries taken from `source`.
pub fn next_query(
    state: &mut WwrState,
    source: &mut Vec<Vec<u8>>,
    name_code: &HexNameCode,
    session_id: u16,
    host: &Domain,
    record_type: RecordType,
) -> (r: Result<(Message, usize), String>)
    requires
        old(state).wf(),
    ensures
        final(state).wf(),
        final(state).in_window_start() == old(state).in_window_start(),
        r matches Ok((m, _)) ==> m.questions@.len() == 1 && m.questions@[0].record_type == record_type
            && m.questions@[0].record_class == RecordClass::IN && !m.header.is_response,
        exists|api: char, bytes: Seq<u8>|
            {
                &&& api == 't' || api == 'p'
                &&& query_bytes_of(
                    api,
                    bytes,
                    *final(state),
                    if old(state).cursor() < final(state).pending().len() {
                        old(state).cursor() as int
                    } else {
                        0
                    },
                )
                &&& (r is Ok <==> valid_domain(query_labels(api, session_id, bytes, host@)))
                &&& (r matches Ok((m, _)) ==> m.questions@[0].domain@ == query_labels(
                    api,
                    session_id,
                    bytes,
                    host@,
                ))
            },
{
    let (packet, taken) = next_packet_out(state, source);
    let (api_code, data) = match packet.encode_query() {
        Ok(x) => x,
        Err(e) => {
            return Err(e);
        },
    };
    proof {
        let a = ack_bytes(packet.ack.window_start, packet.ack.window_mask@);
        let tail = data@.skip(a.len() as int);
        assert(data@ =~= a + tail);
        if api_code == 't' {
            let c = packet.chunk->Some_0;
            assert(tail =~= chunk_bytes(c.seq, c.data@));
        }
        let k = if old(state).cursor() < state.pending().len() {
            old(state).cursor() as int
        } else {
            0
        };
        assert(query_bytes_of(api_code, data@, *state, k));
    }
    match name_code.encode_domain(api_code, session_id, data.as_slice(), host) {
        Ok(domain) => {
            let message = Message::new_query(
                Question { domain, record_type, record_class: RecordClass::IN },
            );
            let r: Result<(Message, usize), String> = Ok((message, taken));
            proof {
                assert(r matches Ok((m, _)) ==> m.questions@[0].domain@ == query_labels(
                    api_code,
                    session_id,
                    data@,
                    host@,
                ));
            }
            r
        },
        Err(e) => {
            let r: Result<(Message, usize), String> = Err(e);
            proof {
                assert(!valid_domain(query_labels(api_code, session_id, data@, host@)));
            }
            r
        },
    }
}

/// The bytes that a response's single TXT answer carries.
pub open spec fn response_payload(msg: Message) -> Seq<u8> {
    match msg.answers@[0].body {
        RecordBody::Unknown(b) => match txt_decode(b@) {
            Some(d) => d,
            None => Seq::empty(),
        },
        _ => Seq::empty(),
    }
}

/// Whether a response carries a packet: one answer, not truncated, whose
/// body reads as runs of bytes that decode as a packet.
pub open spec fn response_usable(msg: Message, query_window: u16) -> bool {
    &&& msg.answers@.len() == 1
    &&& !msg.header.truncated
    &&& query_window >= 1
    &&& msg.answers@[0].body matches RecordBody::Unknown(b)
    &&& txt_decode(b@) is Some
    &&& response_packet_ok(response_payload(msg), query_window)
}

/// Take in a response: where it holds exactly one answer, is not truncated,
/// and its body decodes to a packet, feed the packet to the state. Returns
/// the bytes due to the TCP stream and whether it has ended, or `None` for
/// a response that was dropped.
pub fn handle_response(
    msg: &Message,
    record_code: &RawTxtCode,
    query_window: u16,
    state: &mut WwrState,
    can_send: bool,
) -> (r: Option<(Vec<u8>, bool)>)
    requires
        old(state).wf(),
    ensures
        final(state).wf(),
        (msg.answers@.len() != 1 || msg.header.truncated || query_window == 0) ==> r is None
            && *final(state) == *old(state),
        r is None ==> *final(state) == *old(state),
        r is Some <==> response_usable(*msg, query_window),
        r matches Some((data, end)) ==> {
            let d = response_payload(*msg);
            let n = 4 + byte_count((query_window - 1) as nat);
            &&& !old(state).stale_ack(u32_at(d, 0)) ==> final(state).out_window_start() == u32_at(d, 0)
            &&& final(state).out_next() == old(state).out_next()
            &&& (can_send && d.len() > n) ==> delivered(
                old(state).in_window_start(),
                final(state).in_window_start(),
                data@,
                end,
            )
            &&& (!can_send || d.len() == n) ==> data@.len() == 0 && !end && final(state).received()
                == old(state).received() && final(state).in_window_start() == old(
                state,
            ).in_window_start()
        },
    {
    if msg.answers.len() != 1 || msg.header.truncated || query_window == 0 {
        return None;
    }
    let raw = match record_code.decode_body(&msg.answers[0].body) {
        Ok(b) => b,
        Err(_) => {
            return None;
        },
    };
    let packet = match Packet::decode_response(raw.as_slice(), query_window) {
        Ok(p) => p,
        Err(_) => {
            return None;
        },
    };
    proof {
        let d = raw@;
        assert(d.take(4) =~= d.subrange(0, 4));
        crate::record::lemma_u32_at(d, 0, packet.ack.window_start);
    }
    Some(handle_packet_in(packet, state, can_send))
}

} // verus!
