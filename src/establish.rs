//! The handshake that opens a session: the query a client sends, the
//! password proof it carries, and the server's answer.

use vstd::prelude::*;
use vstd::string::StringSliceAdditionalSpecFns;
use vstd::utf8::{encode_utf8, valid_utf8, decode_utf8};
use crate::codec::{EncPacket, DecPacket, be16, be32, be64, copy_slice};
use crate::digest::{sha1_of, sha1_digest};
use crate::domain::{Domain, strings_view, valid_domain, label_bytes};
use crate::message::Message;
use crate::record::RecordBody;
use crate::record_code::{get_record_code, txt_encode, txt_decode, RawTxtCode};
use crate::discovery::answer_query;
use crate::header::Header;
use crate::name_code::hex_val;
use crate::text::{push_char, chars_of, push_decimal, decimal, parse_decimal, parse_u64};
use crate::util::{domain_ends_with, ends_with_ci, is_api_query, api_query_spec};

verus! {

/// The bytes hashed for a proof: password, time in decimal, password.
pub open spec fn proof_input(password: Seq<u8>, t: u64) -> Seq<u8> {
    password + label_bytes(decimal(t as nat)) + password
}

/// Whether `proof` is the proof of `password` for time `t`: its eight
/// bytes, big-endian, start the SHA-1 digest of the proof input.
pub open spec fn is_proof_of(proof: u64, password: Seq<u8>, t: u64) -> bool {
    be64(proof) == sha1_of(proof_input(password, t)).take(8)
}

/// The password proof for `password` at time `cur_time`.
pub fn password_proof(password: &str, cur_time: u64) -> (r: u64)
    ensures
        is_proof_of(r, password.spec_bytes(), cur_time),
{
    let pw = password.as_bytes();
    let mut input = copy_slice(pw);
    let mut t = String::new();
    push_decimal(&mut t, cur_time);
    let tc = chars_of(t.as_str());
    let mut i: usize = 0;
    let ghost base = input@;
    while i < tc.len()
        invariant
            0 <= i <= tc@.len(),
            input@ == base + label_bytes(tc@.take(i as int)),
        decreases tc@.len() - i,
    {
        input.push(tc[i] as u8);
        i = i + 1;
        proof {
            assert(input@ =~= base + label_bytes(tc@.take(i as int)));
        }
    }
    let mut tail = copy_slice(pw);
    input.append(&mut tail);
    proof {
        assert(tc@.take(tc@.len() as int) =~= tc@);
        assert(input@ =~= proof_input(password.spec_bytes(), cur_time));
    }
    let hash = sha1_digest(input.as_slice());
    let mut p = DecPacket::new(hash);
    let v = p.decode_u64();
    match v {
        Ok(x) => {
            proof {
                assert(p.bytes().subrange(0, 8) =~= sha1_of(input@).take(8));
            }
            x
        },
        Err(_) => {
            proof {
                assert(false);
            }
            0
        },
    }
}

/// What an establish query asks for.
#[derive(Debug)]
pub struct EstablishQuery {
    pub response_encoding: String,
    pub mtu: u16,
    pub name_encoding: String,
    pub query_window: u16,
    pub response_window: u16,
    pub proof: u64,
    pub port: u16,
    pub host: Domain,
}

/// The lowercase hexadecimal digits of `n`, without leading zeros.
pub open spec fn hex_u64(n: nat) -> Seq<char>
    decreases n,
{
    if n < 16 {
        seq![crate::name_code::hex_digit(n)]
    } else {
        hex_u64(n / 16).push(crate::name_code::hex_digit(n % 16))
    }
}

/// The number that a string of hexadecimal digits spells.
pub open spec fn hex_value(s: Seq<char>) -> nat
    decreases s.len(),
{
    if s.len() == 0 {
        0
    } else {
        16 * hex_value(s.drop_last()) + hex_val(s.last())->0
    }
}

/// `s` read as a hexadecimal number of 64 bits, where it is one.
pub open spec fn parse_hex(s: Seq<char>) -> Option<nat> {
    if 0 < s.len() && (forall|i: int| 0 <= i < s.len() ==> hex_val(#[trigger] s[i]) is Some)
        && hex_value(s) <= u64::MAX {
        Some(hex_value(s))
    } else {
        None
    }
}

fn hex_digit_value(c: char) -> (r: Option<u64>)
    ensures
        r matches Some(v) ==> hex_val(c) == Some(v as nat) && v < 16,
        r is None ==> hex_val(c) is None,
{
    if '0' <= c && c <= '9' {
        Some((c as u32 - 48) as u64)
    } else if 'a' <= c && c <= 'f' {
        Some((c as u32 - 87) as u64)
    } else if 'A' <= c && c <= 'F' {
        Some((c as u32 - 55) as u64)
    } else {
        None
    }
}

proof fn lemma_hex_prefix_grows(s: Seq<char>, k: int)
    requires
        0 < k <= s.len(),
        forall|i: int| 0 <= i < k ==> hex_val(#[trigger] s[i]) is Some,
        hex_value(s.subrange(0, k)) > u64::MAX,
    ensures
        parse_hex(s) is None,
    decreases s.len() - k,
{
    if k < s.len() {
        if forall|i: int| 0 <= i < s.len() ==> hex_val(#[trigger] s[i]) is Some {
            assert(s.subrange(0, k + 1).drop_last() =~= s.subrange(0, k));
            lemma_hex_prefix_grows(s, k + 1);
        }
    } else {
        assert(s.subrange(0, k) =~= s);
    }
}

/// Read `s` as a 64-bit hexadecimal number.
fn parse_hex_u64(s: &str) -> (r: Option<u64>)
    ensures
        r matches Some(x) ==> parse_hex(s@) == Some(x as nat),
        r is None ==> parse_hex(s@) is None,
{
    let cs = chars_of(s);
    if cs.len() == 0 {
        return None;
    }
    let mut v: u64 = 0;
    let mut i: usize = 0;
    while i < cs.len()
        invariant
            cs@ == s@,
            0 <= i <= cs@.len(),
            v as nat == hex_value(cs@.subrange(0, i as int)),
            forall|k: int| 0 <= k < i ==> hex_val(#[trigger] cs@[k]) is Some,
        decreases cs@.len() - i,
    {
        let d = match hex_digit_value(cs[i]) {
            Some(d) => d,
            None => {
                return None;
            },
        };
        proof {
            assert(cs@.subrange(0, i + 1).drop_last() =~= cs@.subrange(0, i as int));
        }
        if v > (u64::MAX - d) / 16 {
            proof {
                lemma_hex_prefix_grows(cs@, (i + 1) as int);
            }
            return None;
        }
        v = v * 16 + d;
        i = i + 1;
    }
    proof {
        assert(cs@.subrange(0, cs@.len() as int) =~= cs@);
    }
    Some(v)
}

fn hex_char(n: u64) -> (r: char)
    requires
        n < 16,
    ensures
        r == crate::name_code::hex_digit(n as nat),
{
    if n < 10 {
        ((n + 48) as u8) as char
    } else {
        ((n + 87) as u8) as char
    }
}

/// Append the lowercase hexadecimal digits of `n`.
fn push_hex(s: &mut String, n: u64)
    ensures
        final(s)@ == old(s)@ + hex_u64(n as nat),
    decreases n,
{
    if n >= 16 {
        push_hex(s, n / 16);
    }
    push_char(s, hex_char(n % 16));
    proof {
        assert(s@ =~= old(s)@ + hex_u64(n as nat));
    }
}

/// The labels of an establish query: `e<response encoding>`, the MTU, the
/// name encoding, both window sizes, the proof in hexadecimal, the port,
/// the target host, then the server's zone.
pub open spec fn establish_labels(q: EstablishQuery, zone: Seq<Seq<char>>) -> Seq<Seq<char>> {
    seq![
        seq!['e'] + q.response_encoding@,
        decimal(q.mtu as nat),
        q.name_encoding@,
        decimal(q.query_window as nat),
        decimal(q.response_window as nat),
        hex_u64(q.proof as nat),
        decimal(q.port as nat),
    ] + q.host@ + zone
}

/// `q` is what the labels `ls` ask for under `zone`.
pub open spec fn establish_of(ls: Seq<Seq<char>>, zone: Seq<Seq<char>>, q: EstablishQuery) -> bool {
    &&& ls.len() >= zone.len() + 8
    &&& ends_with_ci(ls, zone)
    &&& q.response_encoding@ == (if ls[0].len() > 0 {
        ls[0].skip(1)
    } else {
        Seq::empty()
    })
    &&& parse_decimal(ls[1], 0xffff) == Some(q.mtu as nat)
    &&& q.name_encoding@ == ls[2]
    &&& parse_decimal(ls[3], 0xffff) == Some(q.query_window as nat)
    &&& parse_decimal(ls[4], 0xffff) == Some(q.response_window as nat)
    &&& parse_hex(ls[5]) == Some(q.proof as nat)
    &&& parse_decimal(ls[6], 0xffff) == Some(q.port as nat)
    &&& q.host@ == ls.subrange(7, ls.len() - zone.len())
}

/// Whether `query` is an establish query.
pub fn is_establish_query(query: &Message) -> (r: bool)
    ensures
        r == api_query_spec(*query, 'e'),
{
    is_api_query(query, 'e')
}

/// A copy of the characters of `s` after the first.
fn tail_string(s: &String) -> (r: String)
    ensures
        r@ == (if s@.len() > 0 {
            s@.skip(1)
        } else {
            Seq::empty()
        }),
{
    let cs = chars_of(s.as_str());
    let mut r = String::new();
    if cs.len() == 0 {
        return r;
    }
    let mut i: usize = 1;
    while i < cs.len()
        invariant
            1 <= i <= cs@.len(),
            r@ == cs@.subrange(1, i as int),
        decreases cs@.len() - i,
    {
        push_char(&mut r, cs[i]);
        i = i + 1;
        proof {
            assert(r@ =~= cs@.subrange(1, i as int));
        }
    }
    proof {
        assert(cs@.subrange(1, cs@.len() as int) =~= cs@.skip(1));
    }
    r
}

impl EstablishQuery {
    /// Read an establish query from the question of `query`.
    pub fn from_query(query: &Message, host: &Domain) -> (r: Result<EstablishQuery, String>)
        ensures
            r is Ok ==> api_query_spec(*query, 'e'),
            r matches Ok(q) ==> establish_of(query.questions@[0].domain@, host@, q),
            api_query_spec(*query, 'e') && (exists|q: EstablishQuery|
                establish_of(query.questions@[0].domain@, host@, q)) && valid_domain(
                query.questions@[0].domain@.subrange(
                    7,
                    query.questions@[0].domain@.len() - host@.len(),
                ),
            ) ==> r is Ok,
    {
        if !is_establish_query(query) {
            return Err("not an establish query".to_owned());
        }
        EstablishQuery::from_domain(&query.questions[0].domain, host)
    }

    /// Read an establish query from its name under the zone `host`.
    pub fn from_domain(domain: &Domain, host: &Domain) -> (r: Result<EstablishQuery, String>)
        ensures
            r matches Ok(q) ==> establish_of(domain@, host@, q),
            (exists|q: EstablishQuery| establish_of(domain@, host@, q)) && valid_domain(
                domain@.subrange(7, domain@.len() - host@.len()),
            ) ==> r is Ok,
    {
        if !domain_ends_with(domain, host) {
            return Err("incorrect host domain".to_owned());
        }
        let parts = domain.parts();
        let hl = host.parts().len();
        if parts.len() - hl < 8 {
            return Err("not enough labels".to_owned());
        }
        proof {
            assert(domain@[0] == parts@[0]@);
            assert(domain@[1] == parts@[1]@);
            assert(domain@[2] == parts@[2]@);
            assert(domain@[3] == parts@[3]@);
            assert(domain@[4] == parts@[4]@);
            assert(domain@[5] == parts@[5]@);
            assert(domain@[6] == parts@[6]@);
        }
        let response_encoding = tail_string(&parts[0]);
        let mtu = parse_u64(parts[1].as_str(), 0xffff);
        let name_encoding = parts[2].clone();
        let query_window = parse_u64(parts[3].as_str(), 0xffff);
        let response_window = parse_u64(parts[4].as_str(), 0xffff);
        let proof = parse_hex_u64(parts[5].as_str());
        let port = parse_u64(parts[6].as_str(), 0xffff);
        let mut labels: Vec<String> = Vec::new();
        let mut i: usize = 7;
        let end = parts.len() - hl;
        while i < end
            invariant
                strings_view(parts@) == domain@,
                end == domain@.len() - host@.len(),
                7 <= i <= end,
                strings_view(labels@) == domain@.subrange(7, i as int),
            decreases end - i,
        {
            let s = parts[i].clone();
            let ghost pv = strings_view(labels@);
            labels.push(s);
            i = i + 1;
            proof {
                assert(strings_view(labels@) =~= pv.push(s@));
                assert(strings_view(labels@) =~= domain@.subrange(7, i as int));
            }
        }
        match (mtu, query_window, response_window, proof, port) {
            (Some(m), Some(qw), Some(rw), Some(p), Some(pt)) => {
                let target = Domain::from_parts(labels)?;
                Ok(EstablishQuery {
                    response_encoding,
                    mtu: m as u16,
                    name_encoding,
                    query_window: qw as u16,
                    response_window: rw as u16,
                    proof: p,
                    port: pt as u16,
                    host: target,
                })
            },
            _ => Err("invalid number in domain".to_owned()),
        }
    }

    /// The name of this query under the zone `host`.
    pub fn to_domain(&self, host: &Domain) -> (r: Result<Domain, String>)
        ensures
            r is Ok <==> valid_domain(establish_labels(*self, host@)),
            r matches Ok(d) ==> d@ == establish_labels(*self, host@),
    {
        let mut parts: Vec<String> = Vec::new();
        let mut first = String::new();
        push_char(&mut first, 'e');
        let enc = chars_of(self.response_encoding.as_str());
        let mut i: usize = 0;
        while i < enc.len()
            invariant
                0 <= i <= enc@.len(),
                enc@ == self.response_encoding@,
                first@ == seq!['e'] + enc@.take(i as int),
            decreases enc@.len() - i,
        {
            push_char(&mut first, enc[i]);
            i = i + 1;
            proof {
                assert(first@ =~= seq!['e'] + enc@.take(i as int));
            }
        }
        proof {
            assert(enc@.take(enc@.len() as int) =~= enc@);
        }
        parts.push(first);
        let mut s1 = String::new();
        push_decimal(&mut s1, self.mtu as u64);
        parts.push(s1);
        parts.push(self.name_encoding.clone());
        let mut s3 = String::new();
        push_decimal(&mut s3, self.query_window as u64);
        parts.push(s3);
        let mut s4 = String::new();
        push_decimal(&mut s4, self.response_window as u64);
        parts.push(s4);
        let mut s5 = String::new();
        push_hex(&mut s5, self.proof);
        parts.push(s5);
        let mut s6 = String::new();
        push_decimal(&mut s6, self.port as u64);
        parts.push(s6);
        let ghost head = strings_view(parts@);
        proof {
            assert(head =~= establish_labels(*self, host@).take(7));
        }
        append_labels(&mut parts, &self.host);
        append_labels(&mut parts, host);
        proof {
            assert(strings_view(parts@) =~= establish_labels(*self, host@));
        }
        Domain::from_parts(parts)
    }

    /// Whether the proof matches `password` at some time in
    /// `[cur_time - window, cur_time + window)`.
    pub fn check_proof(&self, password: &str, cur_time: u64, window: u64) -> (r: bool)
        requires
            window <= cur_time,
            cur_time + window <= u64::MAX,
        ensures
            r == exists|t: u64|
                cur_time - window <= t < cur_time + window && is_proof_of(
                    self.proof,
                    password.spec_bytes(),
                    t,
                ),
    {
        let mut t = cur_time - window;
        while t < cur_time + window
            invariant
                window <= cur_time,
                cur_time + window <= u64::MAX,
                cur_time - window <= t <= cur_time + window,
                forall|u: u64|
                    cur_time - window <= u < t ==> !is_proof_of(self.proof, password.spec_bytes(), u),
            decreases cur_time + window - t,
        {
            let expected = password_proof(password, t);
            if self.proof == expected {
                return true;
            }
            proof {
                if is_proof_of(self.proof, password.spec_bytes(), t) {
                    crate::codec::lemma_be64_injective(self.proof, expected);
                }
            }
            t = t + 1;
        }
        false
    }
}

/// Append copies of the labels of `d`.
fn append_labels(parts: &mut Vec<String>, d: &Domain)
    ensures
        strings_view(final(parts)@) == strings_view(old(parts)@) + d@,
{
    let dp = d.parts();
    let mut k: usize = 0;
    let ghost pre = strings_view(parts@);
    while k < dp.len()
        invariant
            strings_view(dp@) == d@,
            pre == strings_view(old(parts)@),
            0 <= k <= dp@.len(),
            strings_view(parts@) == pre + d@.take(k as int),
        decreases dp@.len() - k,
    {
        let s = dp[k].clone();
        let ghost pv = strings_view(parts@);
        parts.push(s);
        k = k + 1;
        proof {
            assert(s@ == dp@[k - 1]@);
            assert(strings_view(parts@) =~= pv.push(s@));
            assert(d@.take(k as int) =~= d@.take(k - 1).push(d@[k - 1]));
            assert(strings_view(parts@) =~= pre + d@.take(k as int));
        }
    }
    proof {
        assert(d@.take(d@.len() as int) =~= d@);
    }
}

/// The text that `String::from_utf8_lossy` makes of some bytes.
pub uninterp spec fn utf8_lossy(b: Seq<u8>) -> Seq<char>;

/// Relies on `String::from_utf8_lossy`: the bytes read as UTF-8, with each
/// invalid sequence replaced; the result depends on the bytes alone, and
/// bytes that are valid UTF-8 come back as the characters they encode.
#[verifier::external_body]
fn lossy_string(b: &[u8]) -> (r: String)
    ensures
        r@ == utf8_lossy(b@),
        valid_utf8(b@) ==> r@ == decode_utf8(b@),
{
    String::from_utf8_lossy(b).into_owned()
}

/// The server's answer to an establish query.
#[derive(Debug)]
pub enum EstablishResponse {
    Success { id: u16, seq: u32 },
    Failure(String),
    Unknown(u8),
}

/// The wire form of a response, where it has one.
pub open spec fn response_bytes(r: EstablishResponse) -> Option<Seq<u8>> {
    match r {
        EstablishResponse::Success { id, seq } => Some(seq![0u8] + be16(id) + be32(seq)),
        EstablishResponse::Failure(m) => Some(seq![1u8] + encode_utf8(m@)),
        EstablishResponse::Unknown(_) => None,
    }
}

impl EstablishResponse {
    /// Append the wire form: tag 0 with the session and first sequence
    /// number, or tag 1 with the failure message. An unknown response has
    /// none.
    pub fn encode(&self, packet: &mut EncPacket) -> (r: Result<(), String>)
        ensures
            r is Ok <==> response_bytes(*self) is Some,
            r is Ok ==> final(packet)@ == old(packet)@ + response_bytes(*self)->0,
    {
        match self {
            EstablishResponse::Success { id, seq } => {
                packet.encode_u8(0);
                packet.encode_u16(*id);
                packet.encode_u32(*seq);
                proof {
                    assert(packet@ =~= old(packet)@ + response_bytes(*self)->0);
                }
                Ok(())
            },
            EstablishResponse::Failure(message) => {
                packet.encode_u8(1);
                packet.encode_bytes(message.as_str().as_bytes());
                proof {
                    assert(packet@ =~= old(packet)@ + response_bytes(*self)->0);
                }
                Ok(())
            },
            EstablishResponse::Unknown(_) => Err("cannot encode unknown establish response".to_owned()),
        }
    }

    /// Read a response that fills the rest of the packet.
    pub fn decode(packet: &mut DecPacket) -> (r: Result<EstablishResponse, String>)
        requires
            old(packet).wf(),
        ensures
            ({
                let b = old(packet).rest();
                &&& r is Ok <==> b.len() >= 1 && (b[0] != 0 || b.len() >= 7)
                &&& r matches Ok(resp) ==> match resp {
                    EstablishResponse::Success { id, seq } => b[0] == 0 && be16(id) == b.subrange(1, 3)
                        && be32(seq) == b.subrange(3, 7),
                    EstablishResponse::Failure(m) => b[0] == 1 && m@ == utf8_lossy(b.skip(1)) && (
                    valid_utf8(b.skip(1)) ==> m@ == decode_utf8(b.skip(1))),
                    EstablishResponse::Unknown(x) => b[0] == x && x != 0 && x != 1,
                }
            }),
    {
        proof {
            packet.lemma_wf();
        }
        let ghost b = old(packet).rest();
        let tag = packet.decode_u8()?;
        proof {
            assert(tag == b[0]);
        }
        if tag == 0 {
            let id = packet.decode_u16()?;
            let seq = packet.decode_u32()?;
            proof {
                assert(b.subrange(1, 3) =~= old(packet).bytes().subrange(old(packet).pos() + 1, old(packet).pos() + 3));
                assert(b.subrange(3, 7) =~= old(packet).bytes().subrange(old(packet).pos() + 3, old(packet).pos() + 7));
            }
            Ok(EstablishResponse::Success { id, seq })
        } else if tag == 1 {
            let size = packet.remaining();
            let raw = packet.read_bytes(size)?;
            proof {
                assert(raw@ =~= b.skip(1));
            }
            Ok(EstablishResponse::Failure(lossy_string(raw.as_slice())))
        } else {
            let size = packet.remaining();
            let _rest = packet.read_bytes(size)?;
            Ok(EstablishResponse::Unknown(tag))
        }
    }
}

/// The answer to an establish query: `resp` in the record code that the
/// query asks for, as the single answer.
pub fn establish_response(query: &Message, host: &Domain, resp: EstablishResponse) -> (r: Result<
    Message,
    String,
>)
    ensures
        r matches Ok(m) ==> api_query_spec(*query, 'e') && m.header == (Header {
            is_response: true,
            answer_count: 1,
            ..query.header
        }) && m.answers@.len() == 1 && m.answers@[0].header.ttl == 0
            && m.answers@[0].header.domain@ == query.questions@[0].domain@ && response_bytes(resp) is Some
            && (m.answers@[0].body matches RecordBody::Unknown(b) && b@ == txt_encode(
            response_bytes(resp)->0,
        )),
        ({
            let d = query.questions@[0].domain@;
            (api_query_spec(*query, 'e') && (exists|q: EstablishQuery| establish_of(d, host@, q))
                && valid_domain(d.subrange(7, d.len() - host@.len())) && query.questions@[0].record_type
                == crate::record::RecordType::TXT && d[0].skip(1) == "raw"@ && response_bytes(resp) is Some)
                ==> r is Ok
        }),
{
    let equery = EstablishQuery::from_query(query, host)?;
    let question = &query.questions[0];
    let code = match get_record_code(question.record_type, equery.response_encoding.as_str()) {
        Some(c) => c,
        None => {
            proof {
                let d = query.questions@[0].domain@;
                assert(crate::util::lower(d[0]).len() == d[0].len());
                assert(d[0].len() > 0);
            }
            return Err("no response encoding".to_owned());
        },
    };
    let mut enc = EncPacket::new();
    resp.encode(&mut enc)?;
    proof {
        assert(enc@ =~= response_bytes(resp)->0);
    }
    let data = enc.into_data();
    let body = code.encode_body(data.as_slice())?;
    Ok(answer_query(query, body))
}

/// Whether the response body `b` reads as an establish response.
pub open spec fn response_body_ok(b: Seq<u8>) -> bool {
    b.len() >= 1 && (b[0] != 0 || b.len() >= 7)
}

/// The server's answer to an establish query, read from the single TXT
/// answer of `msg`.
pub fn read_establish_reply(msg: &Message, code: &RawTxtCode) -> (r: Result<EstablishResponse, String>)
    ensures
        r is Ok <==> (msg.answers@.len() == 1 && (msg.answers@[0].body matches RecordBody::Unknown(b)
            && txt_decode(b@) matches Some(d) && response_body_ok(d))),
        r matches Ok(resp) ==> (msg.answers@[0].body matches RecordBody::Unknown(b) && txt_decode(
            b@,
        ) matches Some(d) && match resp {
            EstablishResponse::Success { id, seq } => d[0] == 0 && be16(id) == d.subrange(1, 3)
                && be32(seq) == d.subrange(3, 7),
            EstablishResponse::Failure(m) => d[0] == 1 && m@ == utf8_lossy(d.skip(1)) && (valid_utf8(
                d.skip(1),
            ) ==> m@ == decode_utf8(d.skip(1))),
            EstablishResponse::Unknown(x) => d[0] == x && x != 0 && x != 1,
        }),
{
    if msg.answers.len() != 1 {
        return Err("establish response has no single answer".to_owned());
    }
    let body = code.decode_body(&msg.answers[0].body)?;
    let mut packet = DecPacket::new(body);
    proof {
        assert(packet.rest() =~= packet.bytes());
    }
    EstablishResponse::decode(&mut packet)
}

/// A failure message's bytes are valid UTF-8 and decode to the message,
/// so reading a written failure response gives the message back.
pub proof fn lemma_failure_text_round_trip(message: Seq<char>)
    ensures
        valid_utf8(encode_utf8(message)),
        decode_utf8(encode_utf8(message)) == message,
        (seq![1u8] + encode_utf8(message)).skip(1) == encode_utf8(message),
{
    vstd::utf8::encode_utf8_valid_utf8(message);
    vstd::utf8::encode_utf8_decode_utf8(message);
    assert((seq![1u8] + encode_utf8(message)).skip(1) =~= encode_utf8(message));
}

} // verus!
