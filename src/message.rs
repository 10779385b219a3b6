//! Whole DNS messages: a header and four sections.

use vstd::prelude::*;
use crate::codec::{EncPacket, DecPacket, be16};
use crate::domain::{Domain, compressed, name_at, labels_of_bytes, all_ascii, valid_domain, labels_bytes, lemma_domain_round_trip};
use crate::record::{type_of_code, class_of_code, valid_name_at, name_end, name_labels, u16_at, record_ok, record_end, record_matches, canonical_record, lemma_record_round_trip, lemma_body_len};
use crate::header::lemma_header_round_trip;
use crate::header::{Header, header_bytes, header_of, opcode_value, rcode_value};
use crate::record::{Record, RecordType, RecordClass, record_bytes, record_body_at, type_code, class_code};

verus! {

/// A question: the name, type and class asked about.
#[derive(Debug)]
pub struct Question {
    pub domain: Domain,
    pub record_type: RecordType,
    pub record_class: RecordClass,
}

/// A DNS message.
#[derive(Debug)]
pub struct Message {
    pub header: Header,
    pub questions: Vec<Question>,
    pub answers: Vec<Record>,
    pub authorities: Vec<Record>,
    pub additional: Vec<Record>,
}

/// The wire form of a question written after `buf`.
pub open spec fn question_bytes(buf: Seq<u8>, q: Question) -> Seq<u8> {
    compressed(buf, q.domain@) + be16(type_code(q.record_type)) + be16(class_code(q.record_class))
}

/// The wire form of questions written one after another after `buf`.
pub open spec fn questions_wire(buf: Seq<u8>, qs: Seq<Question>) -> Seq<u8>
    decreases qs.len(),
{
    if qs.len() == 0 {
        Seq::empty()
    } else {
        let b = question_bytes(buf, qs[0]);
        b + questions_wire(buf + b, qs.skip(1))
    }
}

/// The wire form of records written one after another after `buf`, where
/// each body fits its length field.
pub open spec fn records_wire(buf: Seq<u8>, rs: Seq<Record>) -> Option<Seq<u8>>
    decreases rs.len(),
{
    if rs.len() == 0 {
        Some(Seq::empty())
    } else if record_body_at(buf, rs[0]).len() > 0xffff {
        None
    } else {
        let b = record_bytes(buf, rs[0]);
        match records_wire(buf + b, rs.skip(1)) {
            Some(t) => Some(b + t),
            None => None,
        }
    }
}

pub open spec fn then_wire(prefix: Seq<u8>, rest: Option<Seq<u8>>) -> Option<Seq<u8>> {
    match rest {
        Some(t) => Some(prefix + t),
        None => None,
    }
}

/// Whether a question reads at `p` in `b`.
pub open spec fn question_ok(b: Seq<u8>, p: int) -> bool {
    valid_name_at(b, p) is Some && name_end(b, p) + 4 <= b.len()
}

/// Where the question at `p` ends.
pub open spec fn question_end(b: Seq<u8>, p: int) -> int {
    name_end(b, p) + 4
}

/// Whether `q` is what the question at `p` in `b` holds.
pub open spec fn question_matches(q: Question, b: Seq<u8>, p: int) -> bool {
    &&& q.domain@ == name_labels(b, p)
    &&& q.record_type == type_of_code(u16_at(b, name_end(b, p)))
    &&& q.record_class == class_of_code(u16_at(b, name_end(b, p) + 2))
}

/// Where `n` questions read one after another from `p` end, if they read.
pub open spec fn questions_end(b: Seq<u8>, p: int, n: nat) -> Option<int>
    decreases n,
{
    if n == 0 {
        Some(p)
    } else if question_ok(b, p) {
        questions_end(b, question_end(b, p), (n - 1) as nat)
    } else {
        None
    }
}

/// Where `n` records read one after another from `p` end, if they read.
pub open spec fn records_end(b: Seq<u8>, p: int, n: nat) -> Option<int>
    decreases n,
{
    if n == 0 {
        Some(p)
    } else if record_ok(b, p) {
        records_end(b, record_end(b, p), (n - 1) as nat)
    } else {
        None
    }
}

/// Where the sections of a message in `b` end, if they all read.
pub open spec fn sections_end(b: Seq<u8>) -> Option<int> {
    let h = header_of(b);
    match questions_end(b, 12, h.question_count as nat) {
        None => None,
        Some(q) => match records_end(b, q, h.answer_count as nat) {
            None => None,
            Some(a) => match records_end(b, a, h.authority_count as nat) {
                None => None,
                Some(au) => records_end(b, au, h.additional_count as nat),
            },
        },
    }
}

/// Whether the questions and records of `m` are those that `b` holds, each
/// at the offset where the one before it ends.
pub open spec fn items_match(m: Message, b: Seq<u8>) -> bool {
    let qe = questions_end(b, 12, m.questions@.len())->0;
    let ae = records_end(b, qe, m.answers@.len())->0;
    let aue = records_end(b, ae, m.authorities@.len())->0;
    &&& forall|k: int|
        0 <= k < m.questions@.len() ==> question_matches(
            #[trigger] m.questions@[k],
            b,
            questions_end(b, 12, k as nat)->0,
        )
    &&& forall|k: int|
        0 <= k < m.answers@.len() ==> record_matches(
            #[trigger] m.answers@[k],
            b,
            records_end(b, qe, k as nat)->0,
        )
    &&& forall|k: int|
        0 <= k < m.authorities@.len() ==> record_matches(
            #[trigger] m.authorities@[k],
            b,
            records_end(b, ae, k as nat)->0,
        )
    &&& forall|k: int|
        0 <= k < m.additional@.len() ==> record_matches(
            #[trigger] m.additional@[k],
            b,
            records_end(b, aue, k as nat)->0,
        )
}

/// Whether `b` is exactly one message.
pub open spec fn message_ok(b: Seq<u8>) -> bool {
    b.len() >= 12 && sections_end(b) == Some(b.len() as int)
}

/// The counts in the header agree with the sections.
pub open spec fn counts_match(m: Message) -> bool {
    &&& m.questions@.len() == m.header.question_count
    &&& m.answers@.len() == m.header.answer_count
    &&& m.authorities@.len() == m.header.authority_count
    &&& m.additional@.len() == m.header.additional_count
}

/// The wire form of a message, where it has one.
pub open spec fn message_wire(m: Message) -> Option<Seq<u8>> {
    if !counts_match(m) || opcode_value(m.header.opcode) is None || rcode_value(
        m.header.response_code,
    ) is None {
        None
    } else {
        let h = header_bytes(m.header);
        let q = h + questions_wire(h, m.questions@);
        match records_wire(q, m.answers@) {
            None => None,
            Some(a) => match records_wire(q + a, m.authorities@) {
                None => None,
                Some(au) => then_wire(q + a + au, records_wire(q + a + au, m.additional@)),
            },
        }
    }
}

impl Question {
    pub fn encode(&self, packet: &mut EncPacket)
        ensures
            final(packet)@ == old(packet)@ + question_bytes(old(packet)@, *self),
    {
        self.domain.encode(packet);
        packet.encode_u16(self.record_type.code());
        packet.encode_u16(self.record_class.code());
        proof {
            assert(packet@ =~= old(packet)@ + question_bytes(old(packet)@, *self));
        }
    }

    pub fn decode(packet: &mut DecPacket) -> (r: Result<Question, String>)
        requires
            old(packet).wf(),
        ensures
            final(packet).wf(),
            final(packet).bytes() == old(packet).bytes(),
            r is Ok <==> question_ok(old(packet).bytes(), old(packet).pos()),
            r matches Ok(q) ==> final(packet).pos() == question_end(old(packet).bytes(), old(packet).pos())
                && q.domain@ == name_labels(old(packet).bytes(), old(packet).pos())
                && q.record_type == type_of_code(u16_at(old(packet).bytes(), name_end(old(packet).bytes(), old(packet).pos())))
                && q.record_class == class_of_code(u16_at(old(packet).bytes(), name_end(old(packet).bytes(), old(packet).pos()) + 2)),
            r matches Ok(q) ==> final(packet).pos() >= old(packet).pos() + 5,
            r matches Ok(q) ==> (name_at(old(packet).bytes(), old(packet).pos()) matches Some((ls, end))
                && q.domain@ == labels_of_bytes(ls) && final(packet).pos() == end + 4
                && old(packet).bytes().subrange(end, end + 4) == be16(type_code(q.record_type)) + be16(
                class_code(q.record_class),
            )),
    {
        let domain = Domain::decode(packet)?;
        let ghost end = packet.pos();
        proof {
            packet.lemma_wf();
        }
        let t = packet.decode_u16()?;
        let c = packet.decode_u16()?;
        proof {
            crate::domain::lemma_name_advances(old(packet).bytes(), old(packet).pos());
            let b = old(packet).bytes();
            crate::record::lemma_u16_at(b, end, t);
            crate::record::lemma_u16_at(b, end + 2, c);
            assert(type_code(crate::record::type_of_code(t)) == t);
            assert(class_code(crate::record::class_of_code(c)) == c);
            assert(b.subrange(end, end + 4) =~= b.subrange(end, end + 2) + b.subrange(end + 2, end + 4));
        }
        Ok(Question {
            domain,
            record_type: RecordType::from_code(t),
            record_class: RecordClass::from_code(c),
        })
    }
}

fn encode_questions(qs: &Vec<Question>, packet: &mut EncPacket)
    ensures
        final(packet)@ == old(packet)@ + questions_wire(old(packet)@, qs@),
{
    let ghost base = packet@;
    let mut i: usize = 0;
    proof {
        assert(qs@.skip(0) =~= qs@);
        assert(packet@.subrange(base.len() as int, packet@.len() as int) =~= Seq::<u8>::empty());
        assert(Seq::<u8>::empty() + questions_wire(base, qs@) =~= questions_wire(base, qs@));
    }
    while i < qs.len()
        invariant
            0 <= i <= qs@.len(),
            base.len() <= packet@.len(),
            packet@.subrange(0, base.len() as int) == base,
            questions_wire(base, qs@) == packet@.subrange(base.len() as int, packet@.len() as int)
                + questions_wire(packet@, qs@.skip(i as int)),
        decreases qs@.len() - i,
    {
        let ghost before = packet@;
        qs[i].encode(packet);
        proof {
            let rest = qs@.skip(i as int);
            assert(rest[0] == qs@[i as int]);
            assert(rest.skip(1) =~= qs@.skip(i + 1));
            assert(packet@.subrange(0, base.len() as int) =~= base);
            assert(packet@.subrange(base.len() as int, packet@.len() as int) =~= before.subrange(
                base.len() as int,
                before.len() as int,
            ) + question_bytes(before, qs@[i as int]));
        }
        i = i + 1;
    }
    proof {
        assert(qs@.skip(i as int) =~= Seq::<Question>::empty());
        assert(packet@ =~= base + packet@.subrange(base.len() as int, packet@.len() as int));
    }
}

fn encode_records(rs: &Vec<Record>, packet: &mut EncPacket) -> (r: Result<(), String>)
    ensures
        r is Ok <==> records_wire(old(packet)@, rs@) is Some,
        r is Ok ==> final(packet)@ == old(packet)@ + records_wire(old(packet)@, rs@)->0,
{
    let ghost base = packet@;
    let mut i: usize = 0;
    proof {
        assert(rs@.skip(0) =~= rs@);
        assert(packet@.subrange(base.len() as int, packet@.len() as int) =~= Seq::<u8>::empty());
        if records_wire(base, rs@) is Some {
            assert(Seq::<u8>::empty() + records_wire(base, rs@)->0 =~= records_wire(base, rs@)->0);
        }
    }
    while i < rs.len()
        invariant
            0 <= i <= rs@.len(),
            base.len() <= packet@.len(),
            packet@.subrange(0, base.len() as int) == base,
            base == old(packet)@,
            records_wire(base, rs@) == then_wire(
                packet@.subrange(base.len() as int, packet@.len() as int),
                records_wire(packet@, rs@.skip(i as int)),
            ),
        decreases rs@.len() - i,
    {
        let ghost before = packet@;
        let ghost rest = rs@.skip(i as int);
        proof {
            assert(rest[0] == rs@[i as int]);
            assert(rest.skip(1) =~= rs@.skip(i + 1));
        }
        let res = rs[i].encode(packet);
        if res.is_err() {
            proof {
                assert(record_body_at(before, rest[0]).len() > 0xffff);
                assert(records_wire(before, rest) is None);
            }
            return res;
        }
        proof {
            assert(packet@.subrange(0, base.len() as int) =~= base);
            let done = before.subrange(base.len() as int, before.len() as int);
            let b = record_bytes(before, rs@[i as int]);
            assert(packet@.subrange(base.len() as int, packet@.len() as int) =~= done + b);
            let tail = records_wire(before + b, rs@.skip(i + 1));
            if tail is Some {
                assert(done + (b + tail->0) =~= (done + b) + tail->0);
            }
        }
        i = i + 1;
    }
    proof {
        assert(rs@.skip(i as int) =~= Seq::<Record>::empty());
        assert(packet@.subrange(base.len() as int, packet@.len() as int) + Seq::<u8>::empty()
            =~= packet@.subrange(base.len() as int, packet@.len() as int));
        assert(packet@ =~= base + packet@.subrange(base.len() as int, packet@.len() as int));
    }
    Ok(())
}

proof fn lemma_questions_end_step(b: Seq<u8>, p: int, i: nat, q: int)
    requires
        questions_end(b, p, i) == Some(q),
        question_ok(b, q),
    ensures
        questions_end(b, p, i + 1) == Some(question_end(b, q)),
    decreases i,
{
    if i > 0 {
        assert(question_ok(b, p));
        lemma_questions_end_step(b, question_end(b, p), (i - 1) as nat, q);
        assert(questions_end(b, p, i + 1) == questions_end(b, question_end(b, p), i));
    } else {
        assert(q == p);
        assert(questions_end(b, question_end(b, p), 0) == Some(question_end(b, p)));
    }
}

proof fn lemma_records_end_step(b: Seq<u8>, p: int, i: nat, q: int)
    requires
        records_end(b, p, i) == Some(q),
        record_ok(b, q),
    ensures
        records_end(b, p, i + 1) == Some(record_end(b, q)),
    decreases i,
{
    if i > 0 {
        assert(record_ok(b, p));
        lemma_records_end_step(b, record_end(b, p), (i - 1) as nat, q);
        assert(records_end(b, p, i + 1) == records_end(b, record_end(b, p), i));
    } else {
        assert(q == p);
        assert(records_end(b, record_end(b, p), 0) == Some(record_end(b, p)));
    }
}

proof fn lemma_questions_end_fail(b: Seq<u8>, p: int, i: nat, n: nat, q: int)
    requires
        i < n,
        questions_end(b, p, i) == Some(q),
        !question_ok(b, q),
    ensures
        questions_end(b, p, n) is None,
    decreases i,
{
    if i > 0 {
        lemma_questions_end_fail(b, question_end(b, p), (i - 1) as nat, (n - 1) as nat, q);
    }
}

proof fn lemma_records_end_fail(b: Seq<u8>, p: int, i: nat, n: nat, q: int)
    requires
        i < n,
        records_end(b, p, i) == Some(q),
        !record_ok(b, q),
    ensures
        records_end(b, p, n) is None,
    decreases i,
{
    if i > 0 {
        lemma_records_end_fail(b, record_end(b, p), (i - 1) as nat, (n - 1) as nat, q);
    }
}

fn decode_questions(packet: &mut DecPacket, n: u16) -> (r: Result<Vec<Question>, String>)
    requires
        old(packet).wf(),
    ensures
        final(packet).wf(),
        final(packet).bytes() == old(packet).bytes(),
        r is Ok <==> questions_end(old(packet).bytes(), old(packet).pos(), n as nat) is Some,
        r matches Ok(v) ==> v@.len() == n && Some(final(packet).pos()) == questions_end(
            old(packet).bytes(),
            old(packet).pos(),
            n as nat,
        ) && forall|k: int|
            0 <= k < n ==> question_matches(
                #[trigger] v@[k],
                old(packet).bytes(),
                questions_end(old(packet).bytes(), old(packet).pos(), k as nat)->0,
            ),
{
    let ghost b = old(packet).bytes();
    let ghost p0 = old(packet).pos();
    let mut v: Vec<Question> = Vec::new();
    let mut i: u16 = 0;
    while i < n
        invariant
            packet.wf(),
            packet.bytes() == b,
            b == old(packet).bytes(),
            p0 == old(packet).pos(),
            0 <= i <= n,
            v@.len() == i,
            questions_end(b, p0, i as nat) == Some(packet.pos()),
            forall|k: int|
                0 <= k < i ==> question_matches(#[trigger] v@[k], b, questions_end(b, p0, k as nat)->0),
        decreases n - i,
    {
        let ghost at = packet.pos();
        let q = match Question::decode(packet) {
            Ok(q) => q,
            Err(e) => {
                proof {
                    lemma_questions_end_fail(b, p0, i as nat, n as nat, at);
                }
                return Err(e);
            },
        };
        proof {
            lemma_questions_end_step(b, p0, i as nat, at);
        }
        v.push(q);
        i = i + 1;
    }
    Ok(v)
}

fn decode_records(packet: &mut DecPacket, n: u16) -> (r: Result<Vec<Record>, String>)
    requires
        old(packet).wf(),
    ensures
        final(packet).wf(),
        final(packet).bytes() == old(packet).bytes(),
        r is Ok <==> records_end(old(packet).bytes(), old(packet).pos(), n as nat) is Some,
        r matches Ok(v) ==> v@.len() == n && Some(final(packet).pos()) == records_end(
            old(packet).bytes(),
            old(packet).pos(),
            n as nat,
        ) && forall|k: int|
            0 <= k < n ==> record_matches(
                #[trigger] v@[k],
                old(packet).bytes(),
                records_end(old(packet).bytes(), old(packet).pos(), k as nat)->0,
            ),
{
    let ghost b = old(packet).bytes();
    let ghost p0 = old(packet).pos();
    let mut v: Vec<Record> = Vec::new();
    let mut i: u16 = 0;
    while i < n
        invariant
            packet.wf(),
            packet.bytes() == b,
            b == old(packet).bytes(),
            p0 == old(packet).pos(),
            0 <= i <= n,
            v@.len() == i,
            records_end(b, p0, i as nat) == Some(packet.pos()),
            forall|k: int|
                0 <= k < i ==> record_matches(#[trigger] v@[k], b, records_end(b, p0, k as nat)->0),
        decreases n - i,
    {
        let ghost at = packet.pos();
        let rec = match Record::decode(packet) {
            Ok(r) => r,
            Err(e) => {
                proof {
                    lemma_records_end_fail(b, p0, i as nat, n as nat, at);
                }
                return Err(e);
            },
        };
        proof {
            lemma_records_end_step(b, p0, i as nat, at);
        }
        v.push(rec);
        i = i + 1;
    }
    Ok(v)
}

impl Message {
    /// A query holding one question, recursion desired.
    pub fn new_query(question: Question) -> (r: Message)
        ensures
            r.header == (Header {
                identifier: 0,
                is_response: false,
                opcode: crate::header::Opcode::Query,
                authoritative: false,
                truncated: false,
                recursion_desired: true,
                recursion_available: false,
                response_code: crate::header::ResponseCode::NoError,
                question_count: 1,
                answer_count: 0,
                authority_count: 0,
                additional_count: 0,
            }),
            r.questions@ == seq![question],
            r.answers@.len() == 0,
            r.authorities@.len() == 0,
            r.additional@.len() == 0,
    {
        let mut questions: Vec<Question> = Vec::new();
        questions.push(question);
        proof {
            assert(questions@ =~= seq![question]);
        }
        Message {
            header: Header {
                identifier: 0,
                is_response: false,
                opcode: crate::header::Opcode::Query,
                authoritative: false,
                truncated: false,
                recursion_desired: true,
                recursion_available: false,
                response_code: crate::header::ResponseCode::NoError,
                question_count: 1,
                answer_count: 0,
                authority_count: 0,
                additional_count: 0,
            },
            questions,
            answers: Vec::new(),
            authorities: Vec::new(),
            additional: Vec::new(),
        }
    }

    /// The wire form of the message; fails where a section's length differs
    /// from its count in the header, the opcode or response code is unknown,
    /// or a record body takes more than 65535 bytes.
    pub fn encode(&self) -> (r: Result<Vec<u8>, String>)
        ensures
            r is Ok <==> message_wire(*self) is Some,
            r matches Ok(b) ==> b@ == message_wire(*self)->0,
    {
        if self.questions.len() != self.header.question_count as usize || self.answers.len()
            != self.header.answer_count as usize || self.authorities.len()
            != self.header.authority_count as usize || self.additional.len()
            != self.header.additional_count as usize {
            return Err("mismatching length in header and vector".to_owned());
        }
        let mut packet = EncPacket::new();
        self.header.encode(&mut packet)?;
        proof {
            assert(packet@ =~= header_bytes(self.header));
        }
        encode_questions(&self.questions, &mut packet);
        encode_records(&self.answers, &mut packet)?;
        encode_records(&self.authorities, &mut packet)?;
        encode_records(&self.additional, &mut packet)?;
        Ok(packet.into_data())
    }

    /// Read a message that fills `data` exactly.
    pub fn decode(data: Vec<u8>) -> (r: Result<Message, String>)
        ensures
            r is Ok <==> message_ok(data@),
            r matches Ok(m) ==> data@.len() >= 12 && m.header == header_of(data@) && counts_match(m)
                && items_match(m, data@),
    {
        let mut packet = DecPacket::new(data);
        let header = Header::decode(&mut packet)?;
        proof {
            assert(packet.bytes().subrange(0, packet.bytes().len() as int) =~= data@);
        }
        let questions = decode_questions(&mut packet, header.question_count)?;
        let answers = decode_records(&mut packet, header.answer_count)?;
        let authorities = decode_records(&mut packet, header.authority_count)?;
        let additional = decode_records(&mut packet, header.additional_count)?;
        proof {
            packet.lemma_wf();
        }
        if packet.remaining() > 0 {
            return Err("trailing data in packet".to_owned());
        }
        Ok(Message { header, questions, answers, authorities, additional })
    }
}

/// A type or class that reads back as itself: a known one, or an unknown
/// number that no known one has.
pub open spec fn canonical_question(q: Question) -> bool {
    type_of_code(type_code(q.record_type)) == q.record_type && class_of_code(
        class_code(q.record_class),
    ) == q.record_class
}

/// A question with a valid name and a canonical type and class, written
/// after any bytes and followed by any bytes, reads back from where it
/// starts: the same labels, type and class, and the offset after it.
pub proof fn lemma_question_round_trip(before: Seq<u8>, q: Question, after: Seq<u8>)
    requires
        valid_domain(q.domain@),
        canonical_question(q),
    ensures
        ({
            let buf = before + question_bytes(before, q) + after;
            let c = compressed(before, q.domain@);
            let end = before.len() + c.len();
            &&& name_at(buf, before.len() as int) == Some((labels_bytes(q.domain@), end as int))
            &&& all_ascii(labels_bytes(q.domain@))
            &&& valid_domain(labels_of_bytes(labels_bytes(q.domain@)))
            &&& labels_of_bytes(labels_bytes(q.domain@)) == q.domain@
            &&& end + 4 <= buf.len()
            &&& buf.subrange(end as int, end + 4int) == be16(type_code(q.record_type)) + be16(
                class_code(q.record_class),
            )
            &&& before.len() + question_bytes(before, q).len() == end + 4
        }),
{
    let c = compressed(before, q.domain@);
    let fixed = be16(type_code(q.record_type)) + be16(class_code(q.record_class));
    let buf = before + question_bytes(before, q) + after;
    lemma_domain_round_trip(before, q.domain@, fixed + after);
    assert(buf =~= before + c + (fixed + after));
    let end = before.len() + c.len();
    assert(buf.subrange(end as int, end + 4int) =~= fixed);
}

proof fn lemma_questions_round_trip(prefix: Seq<u8>, qs: Seq<Question>, buf: Seq<u8>)
    requires
        forall|k: int|
            0 <= k < qs.len() ==> valid_domain(#[trigger] qs[k].domain@) && canonical_question(qs[k]),
        prefix.len() + questions_wire(prefix, qs).len() <= buf.len(),
        buf.subrange(0, (prefix.len() + questions_wire(prefix, qs).len()) as int) == prefix
            + questions_wire(prefix, qs),
    ensures
        questions_end(buf, prefix.len() as int, qs.len()) == Some(
            (prefix.len() + questions_wire(prefix, qs).len()) as int,
        ),
        forall|k: int|
            0 <= k < qs.len() ==> question_matches(
                #[trigger] qs[k],
                buf,
                questions_end(buf, prefix.len() as int, k as nat)->0,
            ),
    decreases qs.len(),
{
    if qs.len() > 0 {
        let p = prefix.len() as int;
        let q = qs[0];
        let qb = question_bytes(prefix, q);
        let rest = qs.skip(1);
        let w = questions_wire(prefix, qs);
        assert(w == qb + questions_wire(prefix + qb, rest));
        let after = buf.subrange(p + qb.len(), buf.len() as int);
        assert(buf =~= prefix + qb + after) by {
            assert forall|k: int| 0 <= k < p + qb.len() implies buf[k] == (prefix + qb)[k] by {
                assert(buf.subrange(0, p + w.len())[k] == buf[k]);
            }
        }
        lemma_question_round_trip(prefix, q, after);
        assert(question_ok(buf, p));
        assert(question_end(buf, p) == p + qb.len());
        let e = name_end(buf, p);
        assert(buf.subrange(e, e + 2) =~= be16(type_code(q.record_type)));
        assert(buf.subrange(e + 2, e + 4) =~= be16(class_code(q.record_class)));
        crate::record::lemma_u16_at(buf, e, type_code(q.record_type));
        crate::record::lemma_u16_at(buf, e + 2, class_code(q.record_class));
        assert(question_matches(q, buf, p));
        assert forall|k: int| 0 <= k < rest.len() implies valid_domain(#[trigger] rest[k].domain@)
            && canonical_question(rest[k]) by {
            assert(rest[k] == qs[k + 1]);
        }
        let p2 = prefix + qb;
        assert(buf.subrange(0, (p2.len() + questions_wire(p2, rest).len()) as int) =~= p2
            + questions_wire(p2, rest)) by {
            assert forall|k: int| 0 <= k < p2.len() + questions_wire(p2, rest).len() implies buf[k] == (p2
                + questions_wire(p2, rest))[k] by {
                assert(buf.subrange(0, p + w.len())[k] == buf[k]);
            }
        }
        lemma_questions_round_trip(p2, rest, buf);
        assert forall|k: int| 0 <= k < qs.len() implies question_matches(
            #[trigger] qs[k],
            buf,
            questions_end(buf, p, k as nat)->0,
        ) by {
            if k > 0 {
                assert(questions_end(buf, p, k as nat) == questions_end(buf, p + qb.len(), (k - 1) as nat));
                assert(qs[k] == rest[k - 1]);
            }
        }
    }
}

proof fn lemma_records_round_trip(prefix: Seq<u8>, rs: Seq<Record>, buf: Seq<u8>)
    requires
        forall|k: int| 0 <= k < rs.len() ==> canonical_record(#[trigger] rs[k]),
    ensures
        records_wire(prefix, rs) is Some,
        ({
            let w = records_wire(prefix, rs)->0;
            (prefix.len() + w.len() <= buf.len() && buf.subrange(0, (prefix.len() + w.len()) as int)
                == prefix + w) ==> records_end(buf, prefix.len() as int, rs.len()) == Some(
                (prefix.len() + w.len()) as int,
            ) && forall|k: int|
                0 <= k < rs.len() ==> record_matches(
                    #[trigger] rs[k],
                    buf,
                    records_end(buf, prefix.len() as int, k as nat)->0,
                )
        }),
    decreases rs.len(),
{
    if rs.len() > 0 {
        let p = prefix.len() as int;
        let r = rs[0];
        let rest = rs.skip(1);
        assert(canonical_record(r));
        lemma_body_len(prefix, r);
        let rb = crate::record::record_bytes(prefix, r);
        let p2 = prefix + rb;
        assert forall|k: int| 0 <= k < rest.len() implies canonical_record(#[trigger] rest[k]) by {
            assert(rest[k] == rs[k + 1]);
        }
        lemma_records_round_trip(p2, rest, buf);
        let w = records_wire(prefix, rs)->0;
        if prefix.len() + w.len() <= buf.len() && buf.subrange(0, (prefix.len() + w.len()) as int)
            == prefix + w {
            let w2 = records_wire(p2, rest)->0;
            assert(w == rb + w2);
            assert(buf.subrange(0, p + rb.len()) =~= prefix + rb) by {
                assert forall|k: int| 0 <= k < p + rb.len() implies buf.subrange(0, p + rb.len())[k]
                    == (prefix + rb)[k] by {
                    assert(buf.subrange(0, p + w.len())[k] == buf[k]);
                }
            }
            lemma_record_round_trip(prefix, r, buf);
            assert(buf.subrange(0, (p2.len() + w2.len()) as int) =~= p2 + w2) by {
                assert forall|k: int| 0 <= k < p2.len() + w2.len() implies buf.subrange(
                    0,
                    (p2.len() + w2.len()) as int,
                )[k] == (p2 + w2)[k] by {
                    assert(buf.subrange(0, p + w.len())[k] == buf[k]);
                }
            }
            assert forall|k: int| 0 <= k < rs.len() implies record_matches(
                #[trigger] rs[k],
                buf,
                records_end(buf, p, k as nat)->0,
            ) by {
                if k > 0 {
                    assert(records_end(buf, p, k as nat) == records_end(buf, p + rb.len(), (k - 1) as nat));
                    assert(rs[k] == rest[k - 1]);
                }
            }
        }
    }
}

/// A message with valid names, canonical questions and records, matching
/// counts and a known opcode and response code.
pub open spec fn canonical_message(m: Message) -> bool {
    &&& counts_match(m)
    &&& opcode_value(m.header.opcode) is Some
    &&& rcode_value(m.header.response_code) is Some
    &&& forall|k: int|
        0 <= k < m.questions@.len() ==> valid_domain(#[trigger] m.questions@[k].domain@)
            && canonical_question(m.questions@[k])
    &&& forall|k: int| 0 <= k < m.answers@.len() ==> canonical_record(#[trigger] m.answers@[k])
    &&& forall|k: int| 0 <= k < m.authorities@.len() ==> canonical_record(#[trigger] m.authorities@[k])
    &&& forall|k: int| 0 <= k < m.additional@.len() ==> canonical_record(#[trigger] m.additional@[k])
}

spec fn q_part(m: Message) -> Seq<u8> {
    header_bytes(m.header) + questions_wire(header_bytes(m.header), m.questions@)
}

spec fn a_part(m: Message) -> Seq<u8> {
    records_wire(q_part(m), m.answers@)->0
}

spec fn au_part(m: Message) -> Seq<u8> {
    records_wire(q_part(m) + a_part(m), m.authorities@)->0
}

spec fn ad_part(m: Message) -> Seq<u8> {
    records_wire(q_part(m) + a_part(m) + au_part(m), m.additional@)->0
}

proof fn lemma_wire_parts(m: Message)
    requires
        canonical_message(m),
    ensures
        message_wire(m) == Some(q_part(m) + a_part(m) + au_part(m) + ad_part(m)),
{
    lemma_records_round_trip(q_part(m), m.answers@, Seq::empty());
    lemma_records_round_trip(q_part(m) + a_part(m), m.authorities@, Seq::empty());
    lemma_records_round_trip(q_part(m) + a_part(m) + au_part(m), m.additional@, Seq::empty());
}

proof fn lemma_wire_header(m: Message)
    requires
        canonical_message(m),
    ensures
        header_of(q_part(m) + a_part(m) + au_part(m) + ad_part(m)) == m.header,
        q_part(m).len() >= 12,
{
    let h = header_bytes(m.header);
    let w = q_part(m) + a_part(m) + au_part(m) + ad_part(m);
    lemma_header_round_trip(m.header);
    assert forall|k: int| 0 <= k < 12 implies w[k] == h[k] by {
        assert(q_part(m)[k] == h[k]);
    }
    assert(header_of(w) == header_of(h));
}

proof fn lemma_question_section(m: Message, w: Seq<u8>)
    requires
        canonical_message(m),
        q_part(m).len() <= w.len(),
        w.subrange(0, q_part(m).len() as int) == q_part(m),
    ensures
        questions_end(w, 12, m.questions@.len()) == Some(q_part(m).len() as int),
        forall|k: int|
            0 <= k < m.questions@.len() ==> question_matches(
                #[trigger] m.questions@[k],
                w,
                questions_end(w, 12, k as nat)->0,
            ),
{
    lemma_header_round_trip(m.header);
    lemma_questions_round_trip(header_bytes(m.header), m.questions@, w);
}

proof fn lemma_record_section(prefix: Seq<u8>, rs: Seq<Record>, w: Seq<u8>)
    requires
        forall|k: int| 0 <= k < rs.len() ==> canonical_record(#[trigger] rs[k]),
        records_wire(prefix, rs) is Some,
        prefix.len() + records_wire(prefix, rs)->0.len() <= w.len(),
        w.subrange(0, (prefix.len() + records_wire(prefix, rs)->0.len()) as int) == prefix
            + records_wire(prefix, rs)->0,
    ensures
        records_end(w, prefix.len() as int, rs.len()) == Some(
            (prefix.len() + records_wire(prefix, rs)->0.len()) as int,
        ),
        forall|k: int|
            0 <= k < rs.len() ==> record_matches(
                #[trigger] rs[k],
                w,
                records_end(w, prefix.len() as int, k as nat)->0,
            ),
{
    lemma_records_round_trip(prefix, rs, w);
}

#[verifier::rlimit(100)]
proof fn lemma_wire_sections(m: Message)
    requires
        canonical_message(m),
        q_part(m).len() >= 12,
        header_of(q_part(m) + a_part(m) + au_part(m) + ad_part(m)) == m.header,
    ensures
        sections_end(q_part(m) + a_part(m) + au_part(m) + ad_part(m)) == Some(
            (q_part(m) + a_part(m) + au_part(m) + ad_part(m)).len() as int,
        ),
        items_match(m, q_part(m) + a_part(m) + au_part(m) + ad_part(m)),
{
    let q = q_part(m);
    let a = a_part(m);
    let au = au_part(m);
    let ad = ad_part(m);
    let w = q + a + au + ad;
    lemma_wire_parts(m);
    lemma_records_round_trip(q, m.answers@, Seq::empty());
    lemma_records_round_trip(q + a, m.authorities@, Seq::empty());
    lemma_records_round_trip(q + a + au, m.additional@, Seq::empty());
    assert(w.subrange(0, q.len() as int) =~= q);
    lemma_question_section(m, w);
    assert(w.subrange(0, (q.len() + a.len()) as int) =~= q + a);
    lemma_record_section(q, m.answers@, w);
    assert(w.subrange(0, (q.len() + a.len() + au.len()) as int) =~= q + a + au);
    lemma_record_section(q + a, m.authorities@, w);
    assert(w.subrange(0, w.len() as int) =~= w);
    lemma_record_section(q + a + au, m.additional@, w);
}

/// A canonical message has a wire form, and that wire form is exactly one
/// message: the same header, and the same questions and records, each at
/// the offset where the one before it ends. What `decode` returns for
/// those bytes matches the same header and the same bytes item by item,
/// so it holds the labels, types, classes, times and bodies of `m`.
pub proof fn lemma_message_round_trip(m: Message)
    requires
        canonical_message(m),
    ensures
        message_wire(m) is Some,
        message_ok(message_wire(m)->0),
        header_of(message_wire(m)->0) == m.header,
        items_match(m, message_wire(m)->0),
{
    lemma_wire_parts(m);
    lemma_wire_header(m);
    lemma_wire_sections(m);
}

} // verus!
