//! DNS resource records.

use vstd::prelude::*;
use crate::domain::{Domain, compressed, name_at, labels_of_bytes, all_ascii, valid_domain, wire_len, labels_bytes, agrees_but_zero_pairs, lemma_compressed_reads_back, lemma_domain_round_trip, lemma_compressed_len};
use crate::codec::{EncPacket, DecPacket, be16, be32};

verus! {

/// The type of a record.
#[derive(PartialEq, Eq, Structural, Clone, Copy, Debug)]
pub enum RecordType {
    A,
    NS,
    CNAME,
    SOA,
    PTR,
    MX,
    TXT,
    AAAA,
    Unknown(u16),
}

/// The class of a record.
#[derive(PartialEq, Eq, Structural, Clone, Copy, Debug)]
pub enum RecordClass {
    IN,
    Unknown(u16),
}

/// The fields that every record starts with.
#[derive(Debug)]
pub struct RecordHeader {
    pub domain: Domain,
    pub record_type: RecordType,
    pub record_class: RecordClass,
    pub ttl: u32,
}

/// The body of an SOA record.
#[derive(Debug)]
pub struct SOADetails {
    pub master_name: Domain,
    pub responsible_name: Domain,
    pub serial: u32,
    pub refresh: u32,
    pub retry: u32,
    pub expire: u32,
    pub minimum: u32,
}

/// The body of a record, by its type.
#[derive(Debug)]
pub enum RecordBody {
    A([u8; 4]),
    AAAA([u8; 16]),
    Domain(Domain),
    SOA(SOADetails),
    Unknown(Vec<u8>),
}

/// A resource record.
#[derive(Debug)]
pub struct Record {
    pub header: RecordHeader,
    pub body: RecordBody,
}

/// The number that stands for a record type on the wire.
pub open spec fn type_code(t: RecordType) -> u16 {
    match t {
        RecordType::A => 1,
        RecordType::NS => 2,
        RecordType::CNAME => 5,
        RecordType::SOA => 6,
        RecordType::PTR => 12,
        RecordType::MX => 15,
        RecordType::TXT => 16,
        RecordType::AAAA => 28,
        RecordType::Unknown(x) => x,
    }
}

/// The record type that a wire number stands for.
pub open spec fn type_of_code(x: u16) -> RecordType {
    if x == 1 {
        RecordType::A
    } else if x == 2 {
        RecordType::NS
    } else if x == 5 {
        RecordType::CNAME
    } else if x == 6 {
        RecordType::SOA
    } else if x == 12 {
        RecordType::PTR
    } else if x == 15 {
        RecordType::MX
    } else if x == 16 {
        RecordType::TXT
    } else if x == 28 {
        RecordType::AAAA
    } else {
        RecordType::Unknown(x)
    }
}

pub open spec fn class_code(c: RecordClass) -> u16 {
    match c {
        RecordClass::IN => 1,
        RecordClass::Unknown(x) => x,
    }
}

pub open spec fn class_of_code(x: u16) -> RecordClass {
    if x == 1 {
        RecordClass::IN
    } else {
        RecordClass::Unknown(x)
    }
}

impl RecordType {
    pub fn code(&self) -> (r: u16)
        ensures
            r == type_code(*self),
    {
        match *self {
            RecordType::A => 1,
            RecordType::NS => 2,
            RecordType::CNAME => 5,
            RecordType::SOA => 6,
            RecordType::PTR => 12,
            RecordType::MX => 15,
            RecordType::TXT => 16,
            RecordType::AAAA => 28,
            RecordType::Unknown(x) => x,
        }
    }

    pub fn from_code(x: u16) -> (r: RecordType)
        ensures
            r == type_of_code(x),
    {
        if x == 1 {
            RecordType::A
        } else if x == 2 {
            RecordType::NS
        } else if x == 5 {
            RecordType::CNAME
        } else if x == 6 {
            RecordType::SOA
        } else if x == 12 {
            RecordType::PTR
        } else if x == 15 {
            RecordType::MX
        } else if x == 16 {
            RecordType::TXT
        } else if x == 28 {
            RecordType::AAAA
        } else {
            RecordType::Unknown(x)
        }
    }
}

impl RecordClass {
    pub fn code(&self) -> (r: u16)
        ensures
            r == class_code(*self),
    {
        match *self {
            RecordClass::IN => 1,
            RecordClass::Unknown(x) => x,
        }
    }

    pub fn from_code(x: u16) -> (r: RecordClass)
        ensures
            r == class_of_code(x),
    {
        if x == 1 {
            RecordClass::IN
        } else {
            RecordClass::Unknown(x)
        }
    }
}

/// The wire form of a record body written after `buf`.
pub open spec fn body_bytes(buf: Seq<u8>, b: RecordBody) -> Seq<u8> {
    match b {
        RecordBody::A(a) => a@,
        RecordBody::AAAA(a) => a@,
        RecordBody::Domain(d) => compressed(buf, d@),
        RecordBody::SOA(soa) => {
            let m = compressed(buf, soa.master_name@);
            let r = compressed(buf + m, soa.responsible_name@);
            m + r + be32(soa.serial) + be32(soa.refresh) + be32(soa.retry) + be32(soa.expire)
                + be32(soa.minimum)
        },
        RecordBody::Unknown(v) => v@,
    }
}

/// The fixed fields after a record's name.
pub open spec fn fixed_bytes(h: RecordHeader) -> Seq<u8> {
    be16(type_code(h.record_type)) + be16(class_code(h.record_class)) + be32(h.ttl)
}

/// The body of `rec` as written after `buf`, its name and fixed fields.
pub open spec fn record_body_at(buf: Seq<u8>, rec: Record) -> Seq<u8> {
    let start = buf + compressed(buf, rec.header.domain@) + fixed_bytes(rec.header);
    body_bytes(start + seq![0u8, 0u8], rec.body)
}

/// The wire form of `rec` written after `buf`.
pub open spec fn record_bytes(buf: Seq<u8>, rec: Record) -> Seq<u8> {
    let body = record_body_at(buf, rec);
    compressed(buf, rec.header.domain@) + fixed_bytes(rec.header) + be16(body.len() as u16) + body
}

impl RecordBody {
    /// Append the body's wire form.
    pub fn encode(&self, packet: &mut EncPacket)
        ensures
            final(packet)@ == old(packet)@ + body_bytes(old(packet)@, *self),
    {
        match self {
            RecordBody::A(a) => {
                let mut i: usize = 0;
                while i < 4
                    invariant
                        0 <= i <= 4,
                        a@.len() == 4,
                        packet@ == old(packet)@ + a@.take(i as int),
                    decreases 4 - i,
                {
                    packet.encode_u8(a[i]);
                    i = i + 1;
                    proof {
                        assert(packet@ =~= old(packet)@ + a@.take(i as int));
                    }
                }
                proof {
                    assert(a@.take(4) =~= a@);
                }
            },
            RecordBody::AAAA(a) => {
                let mut i: usize = 0;
                while i < 16
                    invariant
                        0 <= i <= 16,
                        a@.len() == 16,
                        packet@ == old(packet)@ + a@.take(i as int),
                    decreases 16 - i,
                {
                    packet.encode_u8(a[i]);
                    i = i + 1;
                    proof {
                        assert(packet@ =~= old(packet)@ + a@.take(i as int));
                    }
                }
                proof {
                    assert(a@.take(16) =~= a@);
                }
            },
            RecordBody::Domain(d) => {
                d.encode(packet);
            },
            RecordBody::SOA(soa) => {
                soa.master_name.encode(packet);
                soa.responsible_name.encode(packet);
                packet.encode_u32(soa.serial);
                packet.encode_u32(soa.refresh);
                packet.encode_u32(soa.retry);
                packet.encode_u32(soa.expire);
                packet.encode_u32(soa.minimum);
                proof {
                    assert(packet@ =~= old(packet)@ + body_bytes(old(packet)@, *self));
                }
            },
            RecordBody::Unknown(v) => {
                packet.encode_bytes(v.as_slice());
            },
        }
    }
}

impl Record {
    /// Append the record's wire form; fails where its body takes more than
    /// 65535 bytes.
    pub fn encode(&self, packet: &mut EncPacket) -> (r: Result<(), String>)
        ensures
            r is Ok <==> record_body_at(old(packet)@, *self).len() <= 0xffff,
            r is Ok ==> final(packet)@ == old(packet)@ + record_bytes(old(packet)@, *self),
    {
        self.header.domain.encode(packet);
        packet.encode_u16(self.header.record_type.code());
        packet.encode_u16(self.header.record_class.code());
        packet.encode_u32(self.header.ttl);
        proof {
            assert(packet@ =~= old(packet)@ + compressed(old(packet)@, self.header.domain@)
                + fixed_bytes(self.header));
        }
        let at = packet.begin_length();
        let ghost start = packet@;
        self.body.encode(packet);
        let ghost full = packet@;
        proof {
            assert(full.subrange(0, at as int) =~= start.subrange(0, at as int));
            assert(full.subrange(at + 2, full.len() as int) =~= record_body_at(old(packet)@, *self));
        }
        let res = packet.end_length(at);
        proof {
            if res is Ok {
                assert(packet@ =~= old(packet)@ + record_bytes(old(packet)@, *self));
            }
        }
        res
    }

    /// Read a record: its name, type, class and time to live, then a body
    /// of the length its length field gives.
    pub fn decode(packet: &mut DecPacket) -> (r: Result<Record, String>)
        requires
            old(packet).wf(),
        ensures
            final(packet).wf(),
            final(packet).bytes() == old(packet).bytes(),
            r is Ok <==> record_ok(old(packet).bytes(), old(packet).pos()),
            r matches Ok(rec) ==> record_matches(rec, old(packet).bytes(), old(packet).pos())
                && final(packet).pos() == record_end(old(packet).bytes(), old(packet).pos()),
    {
        let ghost b = old(packet).bytes();
        let domain = Domain::decode(packet)?;
        let ghost end = packet.pos();
        proof {
            packet.lemma_wf();
        }
        let t = packet.decode_u16()?;
        let c = packet.decode_u16()?;
        let ttl = packet.decode_u32()?;
        let record_type = RecordType::from_code(t);
        let record_class = RecordClass::from_code(c);
        let len = packet.decode_length()?;
        let start = packet.current_offset();
        proof {
            lemma_u16_at(b, end, t);
            lemma_u16_at(b, end + 2, c);
            lemma_u32_at(b, end + 4, ttl);
            lemma_u16_at(b, end + 8, len as u16);
            assert(start == end + 10);
        }
        let body = match record_type {
            RecordType::A => {
                let v = packet.read_bytes(4)?;
                let a = [v[0], v[1], v[2], v[3]];
                proof {
                    assert(a@ =~= v@);
                }
                RecordBody::A(a)
            },
            RecordType::AAAA => {
                let v = packet.read_bytes(16)?;
                let a = [
                    v[0],
                    v[1],
                    v[2],
                    v[3],
                    v[4],
                    v[5],
                    v[6],
                    v[7],
                    v[8],
                    v[9],
                    v[10],
                    v[11],
                    v[12],
                    v[13],
                    v[14],
                    v[15],
                ];
                proof {
                    assert(a@ =~= v@);
                }
                RecordBody::AAAA(a)
            },
            RecordType::NS | RecordType::CNAME | RecordType::PTR => {
                RecordBody::Domain(Domain::decode(packet)?)
            },
            RecordType::SOA => {
                let master_name = Domain::decode(packet)?;
                let responsible_name = Domain::decode(packet)?;
                let ghost e3 = packet.pos();
                proof {
                    packet.lemma_wf();
                }
                let serial = packet.decode_u32()?;
                let refresh = packet.decode_u32()?;
                let retry = packet.decode_u32()?;
                let expire = packet.decode_u32()?;
                let minimum = packet.decode_u32()?;
                proof {
                    lemma_u32_at(b, e3, serial);
                    lemma_u32_at(b, e3 + 4, refresh);
                    lemma_u32_at(b, e3 + 8, retry);
                    lemma_u32_at(b, e3 + 12, expire);
                    lemma_u32_at(b, e3 + 16, minimum);
                }
                RecordBody::SOA(
                    SOADetails {
                        master_name,
                        responsible_name,
                        serial,
                        refresh,
                        retry,
                        expire,
                        minimum,
                    },
                )
            },
            _ => RecordBody::Unknown(packet.read_bytes(len)?),
        };
        packet.check_length(start, len)?;
        let header = RecordHeader { domain, record_type, record_class, ttl };
        Ok(Record { header, body })
    }
}

/// The 16-bit number that the two bytes at `i` spell.
pub open spec fn u16_at(b: Seq<u8>, i: int) -> u16 {
    ((b[i] as nat) * 256 + b[i + 1] as nat) as u16
}

/// The 32-bit number that the four bytes at `i` spell.
pub open spec fn u32_at(b: Seq<u8>, i: int) -> u32 {
    ((u16_at(b, i) as nat) * 0x10000 + u16_at(b, i + 2) as nat) as u32
}

pub proof fn lemma_u16_at(b: Seq<u8>, i: int, x: u16)
    requires
        0 <= i,
        i + 2 <= b.len(),
        be16(x) == b.subrange(i, i + 2),
    ensures
        u16_at(b, i) == x,
{
    assert(b.subrange(i, i + 2)[0] == b[i]);
    assert(b.subrange(i, i + 2)[1] == b[i + 1]);
}

pub proof fn lemma_u32_at(b: Seq<u8>, i: int, x: u32)
    requires
        0 <= i,
        i + 4 <= b.len(),
        be32(x) == b.subrange(i, i + 4),
    ensures
        u32_at(b, i) == x,
{
    assert(b.subrange(i, i + 4).subrange(0, 2) =~= b.subrange(i, i + 2));
    assert(b.subrange(i, i + 4).subrange(2, 4) =~= b.subrange(i + 2, i + 4));
    assert(be32(x).subrange(0, 2) =~= be16((x / 0x10000) as u16));
    assert(be32(x).subrange(2, 4) =~= be16((x % 0x10000) as u16));
    lemma_u16_at(b, i, (x / 0x10000) as u16);
    lemma_u16_at(b, i + 2, (x % 0x10000) as u16);
}

/// The labels of a valid name at `p` in `b`, and where it ends.
pub open spec fn valid_name_at(b: Seq<u8>, p: int) -> Option<(Seq<Seq<char>>, int)> {
    match name_at(b, p) {
        Some((ls, e)) => if all_ascii(ls) && valid_domain(labels_of_bytes(ls)) {
            Some((labels_of_bytes(ls), e))
        } else {
            None
        },
        None => None,
    }
}

/// The labels of the valid name at `p`.
pub open spec fn name_labels(b: Seq<u8>, p: int) -> Seq<Seq<char>> {
    match valid_name_at(b, p) {
        Some((ls, _)) => ls,
        None => Seq::empty(),
    }
}

/// Where the valid name at `p` ends.
pub open spec fn name_end(b: Seq<u8>, p: int) -> int {
    match valid_name_at(b, p) {
        Some((_, e)) => e,
        None => p,
    }
}

/// Whether a body of type `t` and length `n` reads at `s` in `b`.
pub open spec fn body_ok(b: Seq<u8>, s: int, n: int, t: RecordType) -> bool {
    match t {
        RecordType::A => n == 4 && s + 4 <= b.len(),
        RecordType::AAAA => n == 16 && s + 16 <= b.len(),
        RecordType::NS | RecordType::CNAME | RecordType::PTR => valid_name_at(b, s) matches Some(
            (_, e),
        ) && e == s + n,
        RecordType::SOA => valid_name_at(b, s) matches Some((_, e2)) && valid_name_at(b, e2) matches Some(
            (_, e3),
        ) && e3 + 20 <= b.len() && e3 + 20 == s + n,
        _ => s + n <= b.len(),
    }
}

/// Where the name of the record at `p` ends.
pub open spec fn record_name_end(b: Seq<u8>, p: int) -> int {
    name_end(b, p)
}

/// Whether a record reads at `p` in `b`.
pub open spec fn record_ok(b: Seq<u8>, p: int) -> bool {
    valid_name_at(b, p) is Some && record_name_end(b, p) + 10 <= b.len() && body_ok(
        b,
        record_name_end(b, p) + 10,
        u16_at(b, record_name_end(b, p) + 8) as int,
        type_of_code(u16_at(b, record_name_end(b, p))),
    )
}

/// Where the record at `p` ends.
pub open spec fn record_end(b: Seq<u8>, p: int) -> int {
    record_name_end(b, p) + 10 + u16_at(b, record_name_end(b, p) + 8) as int
}

/// Whether a body of this variant is the one that records of type `t`
/// carry: A, AAAA, a name for NS, CNAME and PTR, SOA, and raw bytes for any
/// other type.
pub open spec fn body_kind_fits(t: RecordType, body: RecordBody) -> bool {
    match t {
        RecordType::A => body is A,
        RecordType::AAAA => body is AAAA,
        RecordType::NS | RecordType::CNAME | RecordType::PTR => body is Domain,
        RecordType::SOA => body is SOA,
        _ => body is Unknown,
    }
}

/// Whether `rec` is what the record at `p` in `b` holds.
pub open spec fn record_matches(rec: Record, b: Seq<u8>, p: int) -> bool {
    let e = record_name_end(b, p);
    let s = e + 10;
    let n = u16_at(b, e + 8) as int;
    &&& rec.header.domain@ == name_labels(b, p)
    &&& rec.header.record_type == type_of_code(u16_at(b, e))
    &&& rec.header.record_class == class_of_code(u16_at(b, e + 2))
    &&& rec.header.ttl == u32_at(b, e + 4)
    &&& body_kind_fits(rec.header.record_type, rec.body)
    &&& match rec.body {
        RecordBody::A(a) => a@ == b.subrange(s, s + 4),
        RecordBody::AAAA(a) => a@ == b.subrange(s, s + 16),
        RecordBody::Domain(d) => d@ == name_labels(b, s),
        RecordBody::SOA(soa) => {
            let e2 = name_end(b, s);
            let e3 = name_end(b, e2);
            &&& soa.master_name@ == name_labels(b, s)
            &&& soa.responsible_name@ == name_labels(b, e2)
            &&& soa.serial == u32_at(b, e3)
            &&& soa.refresh == u32_at(b, e3 + 4)
            &&& soa.retry == u32_at(b, e3 + 8)
            &&& soa.expire == u32_at(b, e3 + 12)
            &&& soa.minimum == u32_at(b, e3 + 16)
        },
        RecordBody::Unknown(v) => v@ == b.subrange(s, s + n),
    }
}

/// A record that reads back as itself: valid names, a type and class that
/// read back as themselves, a body of the kind its type reads as, an SOA
/// body short enough for one length byte, and an unknown body that fits
/// its length field.
pub open spec fn canonical_record(rec: Record) -> bool {
    let t = rec.header.record_type;
    &&& valid_domain(rec.header.domain@)
    &&& type_of_code(type_code(t)) == t
    &&& class_of_code(class_code(rec.header.record_class)) == rec.header.record_class
    &&& match rec.body {
        RecordBody::A(_) => t == RecordType::A,
        RecordBody::AAAA(_) => t == RecordType::AAAA,
        RecordBody::Domain(d) => (t == RecordType::NS || t == RecordType::CNAME || t
            == RecordType::PTR) && valid_domain(d@),
        RecordBody::SOA(soa) => t == RecordType::SOA && valid_domain(soa.master_name@)
            && valid_domain(soa.responsible_name@) && wire_len(soa.master_name@) + wire_len(
            soa.responsible_name@,
        ) + 20 < 256,
        RecordBody::Unknown(v) => t != RecordType::A && t != RecordType::AAAA && t != RecordType::NS
            && t != RecordType::CNAME && t != RecordType::PTR && t != RecordType::SOA && v@.len()
            <= 0xffff,
    }
}

proof fn lemma_valid_name_facts(ls: Seq<Seq<char>>)
    requires
        valid_domain(ls),
    ensures
        all_ascii(labels_bytes(ls)),
        labels_of_bytes(labels_bytes(ls)) == ls,
{
    lemma_domain_round_trip(Seq::empty(), ls, Seq::empty());
}

/// The length of a canonical record's body fits its length field, and one
/// that holds names fits one byte.
pub proof fn lemma_body_len(prefix: Seq<u8>, rec: Record)
    requires
        canonical_record(rec),
    ensures
        record_body_at(prefix, rec).len() <= 0xffff,
        (rec.body is Domain || rec.body is SOA) ==> record_body_at(prefix, rec).len() < 256,
{
    let c = compressed(prefix, rec.header.domain@);
    let bprime = prefix + c + fixed_bytes(rec.header) + seq![0u8, 0u8];
    match rec.body {
        RecordBody::Domain(d) => {
            lemma_compressed_len(bprime, d@);
        },
        RecordBody::SOA(soa) => {
            let m = compressed(bprime, soa.master_name@);
            lemma_compressed_len(bprime, soa.master_name@);
            lemma_compressed_len(bprime + m, soa.responsible_name@);
        },
        _ => {},
    }
}

/// A window of a buffer's prefix is that window of the prefix.
proof fn lemma_window(buf: Seq<u8>, whole: Seq<u8>, a: int, b: int)
    requires
        whole.len() <= buf.len(),
        buf.subrange(0, whole.len() as int) == whole,
        0 <= a <= b <= whole.len(),
    ensures
        buf.subrange(a, b) == whole.subrange(a, b),
{
    assert forall|j: int| 0 <= j < b - a implies buf.subrange(a, b)[j] == whole.subrange(a, b)[j] by {
        assert(buf.subrange(0, whole.len() as int)[a + j] == buf[a + j]);
    }
    assert(buf.subrange(a, b) =~= whole.subrange(a, b));
}

/// The name, fixed fields and length field of a canonical record read back.
#[verifier::rlimit(50)]
proof fn lemma_record_head(prefix: Seq<u8>, rec: Record, buf: Seq<u8>)
    requires
        canonical_record(rec),
        prefix.len() + record_bytes(prefix, rec).len() <= buf.len(),
        buf.subrange(0, (prefix.len() + record_bytes(prefix, rec).len()) as int) == prefix
            + record_bytes(prefix, rec),
    ensures
        ({
            let p = prefix.len() as int;
            let c = compressed(prefix, rec.header.domain@);
            let e = p + c.len();
            let body = record_body_at(prefix, rec);
            &&& valid_name_at(buf, p) == Some((rec.header.domain@, e))
            &&& u16_at(buf, e) == type_code(rec.header.record_type)
            &&& u16_at(buf, e + 2) == class_code(rec.header.record_class)
            &&& u32_at(buf, e + 4) == rec.header.ttl
            &&& u16_at(buf, e + 8) == body.len()
            &&& e + 10 + body.len() <= buf.len()
            &&& buf.subrange(e + 10, e + 10 + body.len()) == body
        }),
{
    let p = prefix.len() as int;
    let name = rec.header.domain@;
    let c = compressed(prefix, name);
    let body = record_body_at(prefix, rec);
    let t16 = be16(type_code(rec.header.record_type));
    let c16 = be16(class_code(rec.header.record_class));
    let ttl = be32(rec.header.ttl);
    let l16 = be16(body.len() as u16);
    let whole = prefix + c + t16 + c16 + ttl + l16 + body;
    assert(record_bytes(prefix, rec) == c + (t16 + c16 + ttl) + l16 + body);
    assert(prefix + record_bytes(prefix, rec) =~= whole);
    let e = p + c.len();
    lemma_body_len(prefix, rec);
    lemma_valid_name_facts(name);
    lemma_window(buf, whole, 0, p);
    assert(whole.subrange(0, p) =~= prefix);
    assert(agrees_but_zero_pairs(prefix, buf)) by {
        assert forall|d: int| 0 <= d < prefix.len() && #[trigger] buf[d] != prefix[d] implies 1 <= d
            && prefix[d] == 0 && prefix[d - 1] == 0 by {
            assert(buf.subrange(0, p)[d] == buf[d]);
        }
    }
    lemma_window(buf, whole, p, e);
    assert(whole.subrange(p, e) =~= c);
    lemma_compressed_reads_back(prefix, name, buf);
    lemma_window(buf, whole, e, e + 2);
    assert(whole.subrange(e, e + 2) =~= t16);
    lemma_window(buf, whole, e + 2, e + 4);
    assert(whole.subrange(e + 2, e + 4) =~= c16);
    lemma_window(buf, whole, e + 4, e + 8);
    assert(whole.subrange(e + 4, e + 8) =~= ttl);
    lemma_window(buf, whole, e + 8, e + 10);
    assert(whole.subrange(e + 8, e + 10) =~= l16);
    lemma_window(buf, whole, e + 10, e + 10 + body.len());
    assert(whole.subrange(e + 10, e + 10 + body.len()) =~= body);
    lemma_u16_at(buf, e, type_code(rec.header.record_type));
    lemma_u16_at(buf, e + 2, class_code(rec.header.record_class));
    lemma_u32_at(buf, e + 4, rec.header.ttl);
    lemma_u16_at(buf, e + 8, body.len() as u16);
}

/// `buf` agrees with the buffer that a record's body was written after,
/// where the length field still held zeros, but at zero pairs.
#[verifier::rlimit(50)]
proof fn lemma_body_buffer(prefix: Seq<u8>, rec: Record, buf: Seq<u8>)
    requires
        canonical_record(rec),
        rec.body is Domain || rec.body is SOA,
        prefix.len() + record_bytes(prefix, rec).len() <= buf.len(),
        buf.subrange(0, (prefix.len() + record_bytes(prefix, rec).len()) as int) == prefix
            + record_bytes(prefix, rec),
    ensures
        agrees_but_zero_pairs(
            prefix + compressed(prefix, rec.header.domain@) + fixed_bytes(rec.header) + seq![0u8, 0u8],
            buf,
        ),
{
    let c = compressed(prefix, rec.header.domain@);
    let bprime = prefix + c + fixed_bytes(rec.header) + seq![0u8, 0u8];
    let rb = record_bytes(prefix, rec);
    let s = (prefix.len() + c.len() + 10) as int;
    lemma_body_len(prefix, rec);
    assert forall|k: int| 0 <= k < bprime.len() && #[trigger] buf[k] != bprime[k] implies 1 <= k
        && bprime[k] == 0 && bprime[k - 1] == 0 by {
        assert(buf.subrange(0, (prefix.len() + rb.len()) as int)[k] == buf[k]);
        if k < s - 2 {
            assert(bprime[k] == (prefix + rb)[k]);
        }
    }
}

/// A canonical record, written after `prefix`, reads back from where it
/// starts in any buffer that begins with those bytes: the same name, type,
/// class, time to live and body, ending where its bytes end.
#[verifier::rlimit(50)]
pub proof fn lemma_record_round_trip(prefix: Seq<u8>, rec: Record, buf: Seq<u8>)
    requires
        canonical_record(rec),
        prefix.len() + record_bytes(prefix, rec).len() <= buf.len(),
        buf.subrange(0, (prefix.len() + record_bytes(prefix, rec).len()) as int) == prefix
            + record_bytes(prefix, rec),
    ensures
        record_body_at(prefix, rec).len() <= 0xffff,
        record_ok(buf, prefix.len() as int),
        record_matches(rec, buf, prefix.len() as int),
        record_end(buf, prefix.len() as int) == prefix.len() + record_bytes(prefix, rec).len(),
{
    let p = prefix.len() as int;
    let c = compressed(prefix, rec.header.domain@);
    let bprime = prefix + c + fixed_bytes(rec.header) + seq![0u8, 0u8];
    let body = record_body_at(prefix, rec);
    let e = p + c.len();
    let s = e + 10;
    lemma_body_len(prefix, rec);
    lemma_record_head(prefix, rec, buf);
    assert(record_name_end(buf, p) == e);
    match rec.body {
        RecordBody::A(a) => {
            assert(buf.subrange(s, s + 4) =~= a@);
        },
        RecordBody::AAAA(a) => {
            assert(buf.subrange(s, s + 16) =~= a@);
        },
        RecordBody::Domain(d) => {
            lemma_valid_name_facts(d@);
            lemma_body_buffer(prefix, rec, buf);
            assert(buf.subrange(s, s + body.len()) == compressed(bprime, d@));
            lemma_compressed_reads_back(bprime, d@, buf);
        },
        RecordBody::SOA(soa) => {
            lemma_soa_body(prefix, rec, buf);
        },
        RecordBody::Unknown(v) => {},
    }
}

#[verifier::rlimit(100)]
proof fn lemma_soa_body(prefix: Seq<u8>, rec: Record, buf: Seq<u8>)
    requires
        canonical_record(rec),
        rec.body is SOA,
        prefix.len() + record_bytes(prefix, rec).len() <= buf.len(),
        buf.subrange(0, (prefix.len() + record_bytes(prefix, rec).len()) as int) == prefix
            + record_bytes(prefix, rec),
    ensures
        body_ok(
            buf,
            (prefix.len() + compressed(prefix, rec.header.domain@).len() + 10) as int,
            record_body_at(prefix, rec).len() as int,
            RecordType::SOA,
        ),
        ({
            let s = (prefix.len() + compressed(prefix, rec.header.domain@).len() + 10) as int;
            let e2 = name_end(buf, s);
            let e3 = name_end(buf, e2);
            let soa = rec.body->SOA_0;
            &&& soa.master_name@ == name_labels(buf, s)
            &&& soa.responsible_name@ == name_labels(buf, e2)
            &&& soa.serial == u32_at(buf, e3)
            &&& soa.refresh == u32_at(buf, e3 + 4)
            &&& soa.retry == u32_at(buf, e3 + 8)
            &&& soa.expire == u32_at(buf, e3 + 12)
            &&& soa.minimum == u32_at(buf, e3 + 16)
        }),
{
    let soa = rec.body->SOA_0;
    let c = compressed(prefix, rec.header.domain@);
    let bprime = prefix + c + fixed_bytes(rec.header) + seq![0u8, 0u8];
    let body = record_body_at(prefix, rec);
    let s = (prefix.len() + c.len() + 10) as int;
    let m = compressed(bprime, soa.master_name@);
    let r = compressed(bprime + m, soa.responsible_name@);
    lemma_record_head(prefix, rec, buf);
    lemma_valid_name_facts(soa.master_name@);
    lemma_valid_name_facts(soa.responsible_name@);
    lemma_body_buffer(prefix, rec, buf);
    assert(body == m + r + be32(soa.serial) + be32(soa.refresh) + be32(soa.retry) + be32(soa.expire)
        + be32(soa.minimum));
    assert(buf.subrange(s, s + m.len()) =~= m) by {
        assert forall|j: int| 0 <= j < m.len() implies buf.subrange(s, s + m.len())[j] == m[j] by {
            assert(buf.subrange(s, s + body.len())[j] == buf[s + j]);
        }
    }
    lemma_compressed_reads_back(bprime, soa.master_name@, buf);
    let b2 = bprime + m;
    assert(agrees_but_zero_pairs(b2, buf)) by {
        assert forall|k: int| 0 <= k < b2.len() && #[trigger] buf[k] != b2[k] implies 1 <= k && b2[k]
            == 0 && b2[k - 1] == 0 by {
            if k >= s {
                assert(buf.subrange(s, s + body.len())[k - s] == buf[k]);
            } else {
                assert(b2[k] == bprime[k]);
                if k >= 1 {
                    assert(b2[k - 1] == bprime[k - 1]);
                }
            }
        }
    }
    let e2 = s + m.len() as int;
    assert(buf.subrange(e2, e2 + r.len()) =~= r) by {
        assert forall|j: int| 0 <= j < r.len() implies buf.subrange(e2, e2 + r.len())[j] == r[j] by {
            assert(buf.subrange(s, s + body.len())[m.len() + j] == buf[e2 + j]);
        }
    }
    lemma_compressed_reads_back(b2, soa.responsible_name@, buf);
    let e3 = e2 + r.len() as int;
    let tail = buf.subrange(s, s + body.len());
    assert(buf.subrange(e3, e3 + 4) =~= be32(soa.serial)) by {
        assert forall|j: int| 0 <= j < 4 implies buf.subrange(e3, e3 + 4)[j] == be32(soa.serial)[j] by {
            assert(tail[m.len() + r.len() + j] == buf[e3 + j]);
        }
    }
    assert(buf.subrange(e3 + 4, e3 + 8) =~= be32(soa.refresh)) by {
        assert forall|j: int| 0 <= j < 4 implies buf.subrange(e3 + 4, e3 + 8)[j] == be32(soa.refresh)[j] by {
            assert(tail[m.len() + r.len() + 4 + j] == buf[e3 + 4 + j]);
        }
    }
    assert(buf.subrange(e3 + 8, e3 + 12) =~= be32(soa.retry)) by {
        assert forall|j: int| 0 <= j < 4 implies buf.subrange(e3 + 8, e3 + 12)[j] == be32(soa.retry)[j] by {
            assert(tail[m.len() + r.len() + 8 + j] == buf[e3 + 8 + j]);
        }
    }
    assert(buf.subrange(e3 + 12, e3 + 16) =~= be32(soa.expire)) by {
        assert forall|j: int| 0 <= j < 4 implies buf.subrange(e3 + 12, e3 + 16)[j] == be32(soa.expire)[j] by {
            assert(tail[m.len() + r.len() + 12 + j] == buf[e3 + 12 + j]);
        }
    }
    assert(buf.subrange(e3 + 16, e3 + 20) =~= be32(soa.minimum)) by {
        assert forall|j: int| 0 <= j < 4 implies buf.subrange(e3 + 16, e3 + 20)[j] == be32(soa.minimum)[j] by {
            assert(tail[m.len() + r.len() + 16 + j] == buf[e3 + 16 + j]);
        }
    }
    lemma_u32_at(buf, e3, soa.serial);
    lemma_u32_at(buf, e3 + 4, soa.refresh);
    lemma_u32_at(buf, e3 + 8, soa.retry);
    lemma_u32_at(buf, e3 + 12, soa.expire);
    lemma_u32_at(buf, e3 + 16, soa.minimum);
}

} // verus!
