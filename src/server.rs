//! The server's decisions: which handler a message goes to, which session
//! number a new session gets, and how a transfer query is answered. The
//! sockets, the clock and the TCP streams are the caller's.

use vstd::prelude::*;
use crate::discovery::{is_domain_hash_query, is_download_gen_query, is_domain_hash_spec, is_download_gen_spec, answer_query};
use crate::domain::Domain;
use crate::establish::{is_establish_query, EstablishQuery, EstablishResponse};
use crate::header::{Header, ResponseCode};
use crate::message::Message;
use crate::name_code::{get_name_code, HexNameCode};
use crate::record::RecordType;
use crate::record_code::{get_record_code, RawTxtCode};
use crate::session::{handle_packet_in, next_packet_out, xfer_query_session_id};
use crate::util::api_query_spec;
use crate::text::parse_decimal;
use crate::wwr::WwrState;
use crate::xfer::{Packet, query_packet_ok, ack_bytes, chunk_bytes};
use crate::record::u32_at;
use crate::name_code::query_of_labels;
use crate::record_code::txt_encode;
use crate::session::delivered;
use crate::record::RecordBody;

verus! {

/// Where a message goes.
#[derive(PartialEq, Eq, Structural, Clone, Copy, Debug)]
pub enum Route {
    DomainHash,
    DownloadGen,
    Establish,
    Transfer(u16),
    Other,
}

/// The handler for `message`: a discovery probe, an establish query, a
/// transfer query with its session number, or none of these.
pub fn route(message: &Message) -> (r: Route)
    ensures
        is_domain_hash_spec(*message) ==> r == Route::DomainHash,
        !is_domain_hash_spec(*message) && is_download_gen_spec(*message) ==> r == Route::DownloadGen,
        r == Route::Establish ==> api_query_spec(*message, 'e'),
        r is Transfer ==> api_query_spec(*message, 't') || api_query_spec(*message, 'p'),
        r is Other ==> !is_domain_hash_spec(*message) && !is_download_gen_spec(*message)
            && !api_query_spec(*message, 'e'),
        r matches Route::Transfer(id) ==> parse_decimal(message.questions@[0].domain@[0].skip(1), 0xffff)
            == Some(id as nat),
        !is_domain_hash_spec(*message) && !is_download_gen_spec(*message) && !api_query_spec(
            *message,
            'e',
        ) && (api_query_spec(*message, 't') || api_query_spec(*message, 'p')) && parse_decimal(
            message.questions@[0].domain@[0].skip(1),
            0xffff,
        ) is Some ==> r is Transfer,
{
    if is_domain_hash_query(message) {
        Route::DomainHash
    } else if is_download_gen_query(message) {
        Route::DownloadGen
    } else if is_establish_query(message) {
        Route::Establish
    } else {
        match xfer_query_session_id(message) {
            Some(id) => Route::Transfer(id),
            None => Route::Other,
        }
    }
}

/// The lowest session number that `used` does not hold.
pub fn unused_session_id(used: &Vec<u16>) -> (r: Option<u16>)
    ensures
        r matches Some(id) ==> !used@.contains(id) && forall|j: u16| j < id ==> used@.contains(j),
        r is None ==> forall|j: u16| used@.contains(j),
{
    let mut id: u32 = 0;
    while id <= 0xffff
        invariant
            id <= 0x10000,
            forall|j: u16| (j as u32) < id ==> used@.contains(j),
        decreases 0x10000 - id,
    {
        let candidate = id as u16;
        let mut k: usize = 0;
        let mut found = false;
        while k < used.len()
            invariant
                0 <= k <= used@.len(),
                found ==> used@.contains(candidate),
                !found ==> forall|m: int| 0 <= m < k ==> used@[m] != candidate,
            decreases used@.len() - k,
        {
            if used[k] == candidate {
                found = true;
            }
            k = k + 1;
        }
        if !found {
            proof {
                assert forall|j: u16| j < candidate implies used@.contains(j) by {
                    assert((j as u32) < id);
                }
            }
            return Some(candidate);
        }
        id = id + 1;
    }
    None
}

/// The first steps of an establish: a wrong proof fails with "invalid
/// proof"; otherwise the lowest free session number is taken, and none left
/// fails with "no free session IDs".
pub fn establish_session_id(proof_ok: bool, used: &Vec<u16>) -> (r: Result<u16, EstablishResponse>)
    ensures
        !proof_ok ==> (r matches Err(EstablishResponse::Failure(m)) && m@ == "invalid proof"@),
        proof_ok ==> match unused_session_id_spec(used@) {
            Some(id) => r == Ok::<u16, EstablishResponse>(id),
            None => r matches Err(EstablishResponse::Failure(m)) && m@ == "no free session IDs"@,
        },
{
    proof {
        reveal_strlit("invalid proof");
        reveal_strlit("no free session IDs");
    }
    if !proof_ok {
        return Err(EstablishResponse::Failure("invalid proof".to_owned()));
    }
    match unused_session_id(used) {
        Some(id) => Ok(id),
        None => Err(EstablishResponse::Failure("no free session IDs".to_owned())),
    }
}

/// The lowest session number that `used` does not hold.
pub open spec fn unused_session_id_spec(used: Seq<u16>) -> Option<u16> {
    if exists|id: u16| !used.contains(id) {
        Some(choose|id: u16| !used.contains(id) && forall|j: u16| j < id ==> used.contains(j))
    } else {
        None
    }
}

/// Whether a session is over: its streams are done, or it has been idle
/// longer than the timeout.
pub fn session_expired(done: bool, idle_secs: u64, timeout_secs: u64) -> (r: bool)
    ensures
        r == (done || idle_secs > timeout_secs),
{
    done || idle_secs > timeout_secs
}

/// The answer to a query that no handler takes: the query itself, marked
/// as a response without error.
pub fn echo_response(message: Message) -> (r: Message)
    ensures
        r.header == (Header { is_response: true, response_code: ResponseCode::NoError, ..message.header }),
        r.questions == message.questions,
        r.answers == message.answers,
        r.authorities == message.authorities,
        r.additional == message.additional,
{
    let mut response = message;
    response.header.is_response = true;
    response.header.response_code = ResponseCode::NoError;
    response
}

/// The chunk that a reply carries after its acknowledgement: the one just
/// handed out, or nothing when no chunk is pending.
pub open spec fn reply_tail(s: WwrState) -> Seq<u8> {
    if s.pending().len() > 0 {
        chunk_bytes(s.pending()[s.cursor() - 1].seq, s.pending()[s.cursor() - 1].data@)
    } else {
        Seq::empty()
    }
}

/// A server-side session: its number, its WWR state and its codes.
pub struct Session {
    pub id: u16,
    pub state: WwrState,
    pub name_code: HexNameCode,
    pub record_code: RawTxtCode,
    pub response_window: u16,
}

impl Session {
    /// Open a session for an establish query asked with `query_type`,
    /// starting both directions at `seq_start`.
    pub fn new(id: u16, seq_start: u32, query_type: RecordType, query: &EstablishQuery) -> (r: Result<
        Session,
        String,
    >)
        ensures
            r is Ok <==> query.name_encoding@ == "b16"@ && query_type == RecordType::TXT
                && query.response_encoding@ == "raw"@ && query.query_window >= 1
                && query.response_window >= 1,
            r matches Ok(s) ==> s.id == id && s.response_window == query.response_window
                && s.state.wf() && s.state.in_window_size() == query.query_window
                && s.state.out_window_size() == query.response_window && s.state.in_window_start()
                == seq_start && s.state.out_window_start() == seq_start,
    {
        let name_code = match get_name_code(query.name_encoding.as_str()) {
            Some(c) => c,
            None => {
                return Err("bad name code".to_owned());
            },
        };
        let record_code = match get_record_code(query_type, query.response_encoding.as_str()) {
            Some(c) => c,
            None => {
                return Err("bad record code".to_owned());
            },
        };
        if query.query_window == 0 || query.response_window == 0 {
            return Err("window sizes must be positive".to_owned());
        }
        Ok(Session {
            id,
            state: WwrState::new(query.query_window, query.response_window, seq_start),
            name_code,
            record_code,
            response_window: query.response_window,
        })
    }

    /// This session's number.
    pub fn session_id(&self) -> (r: u16)
        ensures
            r == self.id,
    {
        self.id
    }

    /// Whether the session is over: both streams are done, or it has been
    /// idle for longer than the timeout.
    pub fn is_done(&self, idle_secs: u64, timeout_secs: u64) -> (r: bool)
        ensures
            r == (self.state.done() || idle_secs > timeout_secs),
    {
        session_expired(self.state.is_done(), idle_secs, timeout_secs)
    }

    /// Answer a transfer query: decode its name and packet, feed the packet
    /// to the state, move waiting TCP data from `source` into it, and put
    /// the next packet in the single answer. Returns the response, the
    /// bytes due to the TCP stream, and whether that stream has ended.
    pub fn handle_message(
        &mut self,
        message: Message,
        host: &Domain,
        can_send: bool,
        source: &mut Vec<Vec<u8>>,
    ) -> (r: Result<(Message, Vec<u8>, bool), String>)
        requires
            old(self).state.wf(),
            old(self).response_window >= 1,
            message.questions@.len() == 1,
        ensures
            final(self).state.wf(),
            final(self).id == old(self).id,
            final(self).response_window == old(self).response_window,
            r matches Ok((m, _, _)) ==> m.header == (Header {
                is_response: true,
                answer_count: 1,
                ..message.header
            }) && m.answers@.len() == 1 && m.answers@[0].header.ttl == 0
                && m.answers@[0].header.domain@ == message.questions@[0].domain@,
            match query_of_labels(message.questions@[0].domain@, host@) {
                None => r is Err,
                Some((api, _, d)) => {
                    &&& (r is Ok <==> query_packet_ok(d, old(self).response_window, api))
                    &&& (r matches Ok((m, data, end)) ==> {
                        &&& (!can_send || api == 'p') ==> data@.len() == 0 && !end
                        &&& (can_send && api == 't') ==> delivered(
                            old(self).state.in_window_start(),
                            final(self).state.in_window_start(),
                            data@,
                            end,
                        )
                        &&& !old(self).state.stale_ack(u32_at(d, 0)) ==> final(self).state.out_window_start()
                            == u32_at(d, 0)
                        &&& m.answers@[0].body matches RecordBody::Unknown(b) && exists|mask: Seq<bool>|
                            mask.len() == final(self).state.in_window_size() - 1 && (forall|i: int|
                                0 <= i < mask.len() ==> (mask[i] <==> final(self).state.ack_bit(i)))
                                && b@ == txt_encode(
                                ack_bytes(final(self).state.in_window_start(), mask) + reply_tail(
                                    final(self).state,
                                ),
                            )
                    })
                },
            },
    {
        let (api, _sess, data) = self.name_code.decode_domain(&message.questions[0].domain, host)?;
        let in_packet = Packet::decode_query(data.as_slice(), self.response_window, api)?;
        proof {
            assert(data@.take(4) =~= data@.subrange(0, 4));
            crate::record::lemma_u32_at(data@, 0, in_packet.ack.window_start);
        }
        let (to_tcp, finished) = handle_packet_in(in_packet, &mut self.state, can_send);
        let (out_packet, _taken) = next_packet_out(&mut self.state, source);
        let bytes = match out_packet.encode_response() {
            Ok(b) => b,
            Err(e) => {
                return Err(e);
            },
        };
        let body = match self.record_code.encode_body(bytes.as_slice()) {
            Ok(b) => b,
            Err(e) => {
                return Err(e);
            },
        };
        let ghost tail = match out_packet.chunk {
            Some(c) => crate::xfer::chunk_bytes(c.seq, c.data@),
            None => Seq::<u8>::empty(),
        };
        proof {
            assert(tail == reply_tail(self.state));
            assert(bytes@ == ack_bytes(out_packet.ack.window_start, out_packet.ack.window_mask@) + tail);
            let mask = out_packet.ack.window_mask@;
            assert(mask.len() == self.state.in_window_size() - 1);
            assert(out_packet.ack.window_start == self.state.in_window_start());
            assert(body matches RecordBody::Unknown(b) && b@ == txt_encode(
                ack_bytes(self.state.in_window_start(), mask) + tail,
            ));
        }
        let answer = answer_query(&message, body);
        proof {
            let mask = out_packet.ack.window_mask@;
            assert(forall|i: int| 0 <= i < mask.len() ==> (mask[i] <==> self.state.ack_bit(i)));
            assert(answer.answers@[0].body matches RecordBody::Unknown(b) && (mask.len()
                == self.state.in_window_size() - 1 && b@ == txt_encode(
                ack_bytes(self.state.in_window_start(), mask) + tail,
            )));
        }
        Ok((answer, to_tcp, finished))
    }
}

} // verus!
